//! What the parser makes of a state: the grammar of declarations, written as
//! functions from the state before to the result and the state after.
//!
//! Declarators, their suffixes and parameter lists are defined by recursion on
//! what remains of the input. Where one recursion continues from the state
//! that another one left, the definition first compares what remains; the
//! comparison always holds, as `lemma_declarator_remaining` and its
//! companions among the laws show, and is there only so that the definition
//! is well founded.

use crate::data::{
    Keyword, Locatable, Qualifiers, SpecArrayType, SpecFunctionType, SpecStmt, SpecSymbol,
    SpecToken, SpecType, StorageClass,
};
use crate::message::{
    declares_nothing_text, duplicate_pointer_qualifier_text, duplicate_specifier_text,
    expected_declarator_text, expected_type_text, missing_type_specifier_text, not_handled_text,
    parameter_before_ellipsis_text, parameter_storage_class_text, parameters_require_types_text,
};
use crate::laws::{
    lemma_declaration_specifiers_remaining, lemma_declarator_remaining,
    lemma_declarators_remaining, lemma_parameter_remaining, lemma_pointer_qualifiers_remaining,
};
use crate::resolution::Resolution;
use crate::specifiers::SpecSpecifiers;
use crate::state::{
    failure, lemma_cursor_remaining, Severity, SpecDeclarator, SpecOutcome, State,
};
use vstd::prelude::*;

verus! {

/// A declarator that was read, or the error in its place.
pub type SpecDeclared = Locatable<Result<SpecDeclarator, Seq<char>>>;

/// What a run of specifiers resolved to, or the first error among them.
pub type SpecResolved = Result<(StorageClass, Qualifiers, SpecType), Locatable<Seq<char>>>;

/// The errors of a run of specifiers as outcomes, in order.
pub open spec fn failures(errors: Seq<Locatable<Seq<char>>>) -> Seq<SpecOutcome> {
    errors.map_values(|error: Locatable<Seq<char>>| failure(error.data, error.location))
}

/// The function type with the given parts.
pub open spec fn function_type(
    return_type: SpecType,
    params: Seq<SpecSymbol>,
    varargs: bool,
) -> SpecType {
    SpecType::Function(SpecFunctionType { return_type: Box::new(return_type), params, varargs })
}

/// The keyword of a token, if the token is a keyword that may stand among
/// the specifiers of a declaration.
pub open spec fn specifier_of(token: Option<Locatable<SpecToken>>) -> Option<Locatable<Keyword>> {
    match token {
        Some(Locatable { data: SpecToken::Keyword(keyword), location }) => {
            if keyword.spec_is_decl_specifier() {
                Some(Locatable { data: keyword, location })
            } else {
                None
            }
        },
        _ => None,
    }
}

/// The declarator `prefix` with another type in place of its own.
pub open spec fn retyped(prefix: Locatable<SpecDeclarator>, ctype: SpecType) -> Locatable<
    SpecDeclarator,
> {
    Locatable { data: (prefix.data.0, ctype), location: prefix.location }
}

impl State {
    /// The token looked at, if it is a keyword that may stand among the
    /// specifiers of a declaration.
    pub open spec fn specifier(self) -> Option<Locatable<Keyword>> {
        specifier_of(self.current)
    }

    /// The specifier keywords that follow, as far as they go, after those in
    /// `run`, and the state after consuming them. A keyword in `seen` that
    /// may be repeated is reported with a warning as it is met.
    pub open spec fn specifier_run(self, seen: Set<Keyword>, run: Seq<Locatable<Keyword>>) -> (
        Seq<Locatable<Keyword>>,
        State,
    )
        decreases self.remaining(),
    {
        let peeked = self.peek();
        match peeked.specifier() {
            Some(keyword) => {
                proof {
                    lemma_cursor_remaining(self);
                }
                let consumed = peeked.consume();
                let warned = if seen.contains(keyword.data) && SpecSpecifiers::repeatable(
                    keyword.data,
                ) {
                    consumed.report(
                        Severity::Warning,
                        duplicate_specifier_text(keyword.data),
                        keyword.location,
                    )
                } else {
                    consumed
                };
                warned.specifier_run(seen.insert(keyword.data), run.push(keyword))
            },
            None => (run, peeked),
        }
    }

    /// The specifiers of a declaration that begins with the keyword `start`,
    /// already consumed, and the state after reading them.
    ///
    /// The keywords that follow are consumed and resolved together with
    /// `start`. If there are errors among them, the first one is the result
    /// and the others go to the front of the queue, in order. If the
    /// specifiers name neither a base type nor a sign, a warning is reported
    /// at the next token.
    #[verifier::opaque]
    pub open spec fn declaration_specifiers(self, start: Keyword) -> (SpecResolved, State) {
        let (run, scanned) = self.specifier_run(set![start], Seq::empty());
        let resolved = Resolution::of(start, run).specifiers;
        if resolved.errors.len() > 0 {
            (
                Err(resolved.errors[0]),
                State { pending: failures(resolved.errors.skip(1)) + scanned.pending, ..scanned },
            )
        } else if resolved.ctype is None && resolved.signed is None {
            let (location, looked) = scanned.next_location();
            (
                Ok(resolved.outcome()),
                looked.report(Severity::Warning, missing_type_specifier_text(), location),
            )
        } else {
            (Ok(resolved.outcome()), scanned)
        }
    }

    /// The qualifiers that follow a `*`, added to `qualifiers`, and the state
    /// after consuming them. One that is written again is reported with a
    /// warning.
    pub open spec fn pointer_qualifiers(self, qualifiers: Qualifiers) -> (Qualifiers, State)
        decreases self.remaining(),
    {
        let (token, after) = self.match_any(
            seq![SpecToken::Keyword(Keyword::Const), SpecToken::Keyword(Keyword::Volatile)],
        );
        match token {
            Some(token) => {
                proof {
                    lemma_cursor_remaining(self);
                }
                let held = if token.data == SpecToken::Keyword(Keyword::Const) {
                    qualifiers.c_const
                } else {
                    qualifiers.volatile
                };
                if held {
                    after.report(
                        Severity::Warning,
                        duplicate_pointer_qualifier_text(token.data->Keyword_0),
                        token.location,
                    ).pointer_qualifiers(qualifiers)
                } else if token.data == SpecToken::Keyword(Keyword::Const) {
                    after.pointer_qualifiers(Qualifiers { c_const: true, ..qualifiers })
                } else {
                    after.pointer_qualifiers(Qualifiers { volatile: true, ..qualifiers })
                }
            },
            None => (qualifiers, after),
        }
    }

    /// One declarator around the type `base`, and the state after reading it.
    ///
    /// A parenthesised declarator is read against the same base and then
    /// takes the suffixes that follow the closing parenthesis. A `*` with its
    /// qualifiers makes a pointer of what the declarator after it yields, and
    /// that declarator has taken its own suffixes first. A name stands for the
    /// base itself. Where none of these begins, an abstract declarator, if
    /// permitted, is the base without a name and nothing is consumed.
    pub open spec fn declarator(self, base: SpecType, allow_abstract: bool) -> (SpecDeclared, State)
        decreases self.remaining(), 1nat,
    {
        let peeked = self.peek();
        match peeked.current {
            None => (
                Locatable { data: Err(expected_type_text()), location: peeked.next_location().0 },
                peeked,
            ),
            Some(token) => {
                proof {
                    lemma_cursor_remaining(self);
                    lemma_cursor_remaining(peeked.consume());
                    lemma_pointer_qualifiers_remaining(
                        peeked.consume(),
                        Qualifiers { c_const: false, volatile: false },
                    );
                }
                match token.data {
                    SpecToken::LeftParen => {
                        let (inner, after) = peeked.consume().declarator(base, allow_abstract);
                        let closed = after.expect(SpecToken::RightParen).2;
                        match inner.data {
                            Ok(declared) if closed.remaining() <= self.remaining() => {
                                closed.postfix_type(
                                    Locatable { data: declared, location: inner.location },
                                )
                            },
                            _ => (inner, closed),
                        }
                    },
                    SpecToken::Star => {
                        let (qualifiers, qualified) = peeked.consume().pointer_qualifiers(
                            Qualifiers { c_const: false, volatile: false },
                        );
                        let (inner, after) = qualified.declarator(base, allow_abstract);
                        match inner.data {
                            Ok((name, ctype)) if after.remaining() <= self.remaining() => {
                                after.postfix_type(
                                    Locatable {
                                        data: (
                                            name,
                                            SpecType::Pointer(Box::new(ctype), qualifiers),
                                        ),
                                        location: inner.location,
                                    },
                                )
                            },
                            _ => (inner, after),
                        }
                    },
                    SpecToken::Id(name) => peeked.consume().postfix_type(
                        Locatable { data: (Some(name), base), location: token.location },
                    ),
                    other => if allow_abstract {
                        peeked.postfix_type(
                            Locatable { data: (None, base), location: token.location },
                        )
                    } else {
                        (
                            Locatable {
                                data: Err(expected_declarator_text(other)),
                                location: token.location,
                            },
                            peeked,
                        )
                    },
                }
            },
        }
    }

    /// The declarator `prefix` with the suffixes that follow, applied from
    /// left to right, and the state after reading them: `[]` makes an array
    /// without size, `[` size `]` an array of that size, and a parameter list
    /// a function.
    pub open spec fn postfix_type(self, prefix: Locatable<SpecDeclarator>) -> (SpecDeclared, State)
        decreases self.remaining(), 0nat,
    {
        let peeked = self.peek();
        let done = (Locatable { data: Ok(prefix.data), location: prefix.location }, peeked);
        match peeked.current {
            Some(token) => {
                proof {
                    lemma_cursor_remaining(self);
                    lemma_cursor_remaining(peeked);
                    lemma_cursor_remaining(peeked.consume());
                    lemma_cursor_remaining(peeked.consume().match_next(SpecToken::RightBracket).1);
                    lemma_cursor_remaining(
                        peeked.consume().match_next(SpecToken::RightBracket).1.parse_expr().1,
                    );
                }
                if token.data == SpecToken::LeftBracket {
                    let (close, after) = peeked.consume().match_next(SpecToken::RightBracket);
                    if close is Some {
                        after.postfix_type(
                            retyped(
                                prefix,
                                SpecType::Array(Box::new(prefix.data.1), SpecArrayType::Unbounded),
                            ),
                        )
                    } else {
                        let (size, sized) = after.parse_expr();
                        let closed = sized.expect(SpecToken::RightBracket).2;
                        closed.postfix_type(
                            retyped(
                                prefix,
                                SpecType::Array(
                                    Box::new(prefix.data.1),
                                    SpecArrayType::Fixed(size),
                                ),
                            ),
                        )
                    }
                } else if token.data == SpecToken::LeftParen {
                    let (function, after) = peeked.parameter_type_list(prefix.data.1);
                    if after.remaining() < self.remaining() {
                        after.postfix_type(retyped(prefix, function))
                    } else {
                        (
                            Locatable {
                                data: Ok((prefix.data.0, function)),
                                location: prefix.location,
                            },
                            after,
                        )
                    }
                } else {
                    done
                }
            },
            None => done,
        }
    }

    /// The function type with the return type `return_type` and the
    /// parameter list that follows, parentheses included, and the state after
    /// reading it.
    pub open spec fn parameter_type_list(self, return_type: SpecType) -> (SpecType, State)
        decreases self.expect(SpecToken::LeftParen).2.remaining(), 4nat,
    {
        let opened = self.expect(SpecToken::LeftParen).2;
        let (close, after) = opened.match_next(SpecToken::RightParen);
        if close is Some {
            (function_type(return_type, Seq::empty(), false), after)
        } else {
            proof {
                lemma_cursor_remaining(opened);
            }
            after.parameters(return_type, Seq::empty(), Seq::empty())
        }
    }

    /// One parameter, added to `params`, with the errors found in it added to
    /// `errors`, and the state after reading it.
    ///
    /// A parameter is a run of specifiers and a declarator that may be
    /// abstract. Where no specifier stands, that is an error and `int` is
    /// taken; specifiers that do not resolve count as `int` too. A storage
    /// class of its own is an error. A parameter whose declarator fails is
    /// left out.
    #[verifier::opaque]
    pub open spec fn parameter(self, params: Seq<SpecSymbol>, errors: Seq<SpecOutcome>) -> (
        Seq<SpecSymbol>,
        Seq<SpecOutcome>,
        State,
    )
        decreases self.remaining(), 2nat,
    {
        let peeked = self.peek();
        let (start, location, typed, errors) = match peeked.specifier() {
            Some(keyword) => (keyword.data, keyword.location, peeked.consume(), errors),
            None => (
                Keyword::Int,
                peeked.next_location().0,
                peeked,
                errors.push(failure(parameters_require_types_text(), peeked.next_location().0)),
            ),
        };
        let (specifiers, resolved) = typed.declaration_specifiers(start);
        let (class, qualifiers, ctype) = match specifiers {
            Ok(named) => named,
            Err(_) => (
                StorageClass::Auto,
                Qualifiers { c_const: false, volatile: false },
                SpecType::Int(true),
            ),
        };
        proof {
            lemma_cursor_remaining(self);
            lemma_declaration_specifiers_remaining(typed, start);
        }
        let (declared, named) = resolved.declarator(ctype, true);
        match declared.data {
            Ok((name, ctype)) => (
                params.push(
                    SpecSymbol {
                        id: match name {
                            Some(name) => name,
                            None => Seq::empty(),
                        },
                        ctype,
                        qualifiers,
                        storage_class: StorageClass::Auto,
                    },
                ),
                if class != StorageClass::Auto {
                    errors.push(failure(parameter_storage_class_text(class, name), location))
                } else {
                    errors
                },
                named,
            ),
            Err(message) => (
                params,
                if class != StorageClass::Auto {
                    errors.push(failure(message, declared.location)).push(
                        failure(parameter_storage_class_text(class, None), location),
                    )
                } else {
                    errors.push(failure(message, declared.location))
                },
                named,
            ),
        }
    }

    /// The rest of a parameter list after the parameters in `params`, with
    /// the errors found so far in `errors`, and the state after reading it.
    ///
    /// An ellipsis ends the list and makes the function variadic; it is an
    /// error where no parameter stands before it. Otherwise a parameter
    /// follows, and after a comma the list goes on. Where the list ends,
    /// after an ellipsis or after a parameter that no comma follows, a
    /// closing parenthesis is expected, and the errors of the list join the
    /// queue.
    #[verifier::opaque]
    pub open spec fn parameters(
        self,
        return_type: SpecType,
        params: Seq<SpecSymbol>,
        errors: Seq<SpecOutcome>,
    ) -> (SpecType, State)
        decreases self.remaining(), 3nat,
    {
        let (ellipsis, after) = self.match_next(SpecToken::Ellipsis);
        match ellipsis {
            Some(token) => {
                let errors = if params.len() == 0 {
                    errors.push(failure(parameter_before_ellipsis_text(), token.location))
                } else {
                    errors
                };
                let closed = after.expect(SpecToken::RightParen).2;
                (function_type(return_type, params, true), closed.append_pending(errors))
            },
            None => {
                proof {
                    lemma_cursor_remaining(self);
                }
                let (params, errors, named) = after.parameter(params, errors);
                let (comma, continued) = named.match_next(SpecToken::Comma);
                if comma is Some && continued.remaining() < self.remaining() {
                    continued.parameters(return_type, params, errors)
                } else {
                    let closed = continued.expect(SpecToken::RightParen).2;
                    (function_type(return_type, params, false), closed.append_pending(errors))
                }
            },
        }
    }

    /// The state after the declarators of one declaration, each recorded in
    /// the queue as a statement or as an error, up to and including the
    /// semicolon that ends the declaration.
    #[verifier::opaque]
    pub open spec fn declarators(
        self,
        class: StorageClass,
        qualifiers: Qualifiers,
        ctype: SpecType,
    ) -> State
        decreases self.remaining(),
    {
        let (semicolon, after) = self.match_next(SpecToken::Semicolon);
        if semicolon is Some {
            after
        } else {
            let (declared, named) = after.declarator(ctype, false);
            let recorded = named.push_pending(declared_outcome(declared, class, qualifiers));
            let (comma, continued) = recorded.match_next(SpecToken::Comma);
            if comma is Some {
                proof {
                    lemma_cursor_remaining(self);
                    lemma_declarator_remaining(after, ctype, false);
                    lemma_cursor_remaining(recorded);
                }
                continued.declarators(class, qualifiers, ctype)
            } else {
                continued.expect(SpecToken::Semicolon).2
            }
        }
    }

    /// The first outcome of the declaration that begins with the keyword
    /// `start`, already consumed, and the state after reading the
    /// declaration. A declaration that declares nothing is reported with a
    /// warning, and the outcome is that of what follows it.
    pub open spec fn declaration(self, start: Keyword) -> (Option<SpecOutcome>, State)
        decreases self.remaining(), 1nat,
    {
        let (specifiers, resolved) = self.declaration_specifiers(start);
        match specifiers {
            Err(error) => (Some(failure(error.data, error.location)), resolved),
            Ok((class, qualifiers, ctype)) => {
                let declared = resolved.declarators(class, qualifiers, ctype);
                if declared.pending.len() > 0 {
                    (
                        Some(declared.pending[0]),
                        State { pending: declared.pending.skip(1), ..declared },
                    )
                } else {
                    let (location, looked) = declared.next_location();
                    let warned = looked.report(
                        Severity::Warning,
                        declares_nothing_text(),
                        location,
                    );
                    proof {
                        lemma_declaration_specifiers_remaining(self, start);
                        lemma_declarators_remaining(resolved, class, qualifiers, ctype);
                        lemma_cursor_remaining(declared);
                    }
                    warned.next()
                }
            },
        }
    }

    /// The next outcome and the state after handing it out: the oldest one
    /// that waits in the queue, or else what the next token begins. Nothing
    /// is handed out once the queue is empty and the input at its end.
    pub open spec fn next(self) -> (Option<SpecOutcome>, State)
        decreases self.remaining(), 0nat,
    {
        if self.pending.len() > 0 {
            (Some(self.pending[0]), State { pending: self.pending.skip(1), ..self })
        } else {
            let (token, after) = self.next_token();
            match token {
                None => (None, after),
                Some(token) => {
                    proof {
                        lemma_cursor_remaining(self);
                    }
                    match specifier_of(Some(token)) {
                        Some(keyword) => after.declaration(keyword.data),
                        None => (Some(failure(not_handled_text(), token.location)), after),
                    }
                },
            }
        }
    }
}

/// A parameter list that is closed at once has no parameters.
pub proof fn lemma_parameter_list_empty(s: State, return_type: SpecType)
    requires
        s.expect(SpecToken::LeftParen).2.match_next(SpecToken::RightParen).0 is Some,
    ensures
        s.parameter_type_list(return_type) == (
            function_type(return_type, Seq::empty(), false),
            s.expect(SpecToken::LeftParen).2.match_next(SpecToken::RightParen).1,
        ),
{
}

/// A parameter list that is not closed at once holds the parameters that
/// follow.
pub proof fn lemma_parameter_list_filled(s: State, return_type: SpecType)
    requires
        s.expect(SpecToken::LeftParen).2.match_next(SpecToken::RightParen).0 is None,
    ensures
        s.parameter_type_list(return_type) == s.expect(SpecToken::LeftParen).2.match_next(
            SpecToken::RightParen,
        ).1.parameters(return_type, Seq::empty(), Seq::empty()),
{
    reveal_with_fuel(State::parameters, 1);
}

/// An ellipsis ends the parameters and makes the function variadic; the
/// closing parenthesis is expected after it.
#[verifier::rlimit(40)]
pub proof fn lemma_parameters_variadic(
    s: State,
    return_type: SpecType,
    params: Seq<SpecSymbol>,
    errors: Seq<SpecOutcome>,
)
    requires
        s.match_next(SpecToken::Ellipsis).0 is Some,
    ensures
        s.parameters(return_type, params, errors) == (
            function_type(return_type, params, true),
            s.match_next(SpecToken::Ellipsis).1.expect(SpecToken::RightParen).2.append_pending(
                if params.len() == 0 {
                    errors.push(
                        failure(
                            parameter_before_ellipsis_text(),
                            s.match_next(SpecToken::Ellipsis).0->0.location,
                        ),
                    )
                } else {
                    errors
                },
            ),
        ),
{
    reveal_with_fuel(State::parameters, 1);
}

/// A parameter that no comma follows is the last one.
#[verifier::rlimit(40)]
pub proof fn lemma_parameters_end(
    s: State,
    return_type: SpecType,
    params: Seq<SpecSymbol>,
    errors: Seq<SpecOutcome>,
)
    requires
        s.match_next(SpecToken::Ellipsis).0 is None,
        s.match_next(SpecToken::Ellipsis).1.parameter(params, errors).2.match_next(
            SpecToken::Comma,
        ).0 is None,
    ensures
        s.parameters(return_type, params, errors) == ({
            let read = s.match_next(SpecToken::Ellipsis).1.parameter(params, errors);
            let closed = read.2.match_next(SpecToken::Comma).1.expect(SpecToken::RightParen).2;
            (function_type(return_type, read.0, false), closed.append_pending(read.1))
        }),
{
    reveal_with_fuel(State::parameters, 1);
    reveal_with_fuel(State::parameter, 1);
}

/// After a parameter and a comma the parameters go on.
#[verifier::rlimit(40)]
pub proof fn lemma_parameters_continue(
    s: State,
    return_type: SpecType,
    params: Seq<SpecSymbol>,
    errors: Seq<SpecOutcome>,
)
    requires
        s.match_next(SpecToken::Ellipsis).0 is None,
        s.match_next(SpecToken::Ellipsis).1.parameter(params, errors).2.match_next(
            SpecToken::Comma,
        ).0 is Some,
    ensures
        s.parameters(return_type, params, errors) == ({
            let read = s.match_next(SpecToken::Ellipsis).1.parameter(params, errors);
            read.2.match_next(SpecToken::Comma).1.parameters(return_type, read.0, read.1)
        }),
{
    let after = s.match_next(SpecToken::Ellipsis).1;
    let named = after.parameter(params, errors).2;
    assert(named.match_next(SpecToken::Comma).1.remaining() < s.remaining()) by {
        lemma_cursor_remaining(s);
        lemma_parameter_remaining(after, params, errors);
        lemma_cursor_remaining(named);
    }
    reveal_with_fuel(State::parameters, 1);
    reveal_with_fuel(State::parameter, 1);
}

/// The outcome that a declarator is recorded as: a declaration of its name
/// with the storage class and qualifiers of the specifiers, or its error.
pub open spec fn declared_outcome(
    declared: SpecDeclared,
    class: StorageClass,
    qualifiers: Qualifiers,
) -> SpecOutcome {
    Locatable {
        data: match declared.data {
            Ok((name, ctype)) => Ok(
                SpecStmt::Declaration(
                    SpecSymbol { storage_class: class, qualifiers, ctype, id: name->0 },
                ),
            ),
            Err(message) => Err(message),
        },
        location: declared.location,
    }
}

/// A semicolon ends the declarators.
pub proof fn lemma_declarators_done(
    s: State,
    class: StorageClass,
    qualifiers: Qualifiers,
    ctype: SpecType,
)
    requires
        s.match_next(SpecToken::Semicolon).0 is Some,
    ensures
        s.declarators(class, qualifiers, ctype) == s.match_next(SpecToken::Semicolon).1,
{
    reveal_with_fuel(State::declarators, 1);
}

/// A declarator that no comma follows is the last one: a semicolon is
/// expected after it.
pub proof fn lemma_declarators_end(
    s: State,
    class: StorageClass,
    qualifiers: Qualifiers,
    ctype: SpecType,
)
    requires
        s.match_next(SpecToken::Semicolon).0 is None,
        ({
            let read = s.match_next(SpecToken::Semicolon).1.declarator(ctype, false);
            read.1.push_pending(declared_outcome(read.0, class, qualifiers)).match_next(
                SpecToken::Comma,
            ).0 is None
        }),
    ensures
        s.declarators(class, qualifiers, ctype) == ({
            let read = s.match_next(SpecToken::Semicolon).1.declarator(ctype, false);
            read.1.push_pending(declared_outcome(read.0, class, qualifiers)).match_next(
                SpecToken::Comma,
            ).1.expect(SpecToken::Semicolon).2
        }),
{
    reveal_with_fuel(State::declarators, 1);
}

/// After a declarator and a comma the declarators go on.
pub proof fn lemma_declarators_continue(
    s: State,
    class: StorageClass,
    qualifiers: Qualifiers,
    ctype: SpecType,
)
    requires
        s.match_next(SpecToken::Semicolon).0 is None,
        ({
            let read = s.match_next(SpecToken::Semicolon).1.declarator(ctype, false);
            read.1.push_pending(declared_outcome(read.0, class, qualifiers)).match_next(
                SpecToken::Comma,
            ).0 is Some
        }),
    ensures
        s.declarators(class, qualifiers, ctype) == ({
            let read = s.match_next(SpecToken::Semicolon).1.declarator(ctype, false);
            read.1.push_pending(declared_outcome(read.0, class, qualifiers)).match_next(
                SpecToken::Comma,
            ).1.declarators(class, qualifiers, ctype)
        }),
{
    reveal_with_fuel(State::declarators, 1);
}

} // verus!
