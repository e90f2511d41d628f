//! The parser: a token cursor with one token of lookahead, and above it the
//! recursive descent over declaration specifiers and declarators.

use crate::data::{
    lemma_function_view, symbols_view, ArrayType, BaseType, Expr, FunctionType, Keyword, Locatable,
    Location, Qualifiers, SpecToken, Stmt, StorageClass, Symbol, Token, Type,
};
use crate::grammar::{
    declared_outcome, failures, function_type, lemma_declarators_continue,
    lemma_declarators_done, lemma_declarators_end, lemma_parameter_list_empty,
    lemma_parameter_list_filled, lemma_parameters_continue, lemma_parameters_end,
    lemma_parameters_variadic, SpecDeclared, SpecResolved,
};
use crate::message::{
    declares_nothing, duplicate_basic_type, duplicate_pointer_qualifier, duplicate_specifier,
    expected, expected_declarator, expected_type, missing_type_specifier, not_handled,
    parameter_before_ellipsis, parameter_before_ellipsis_text, parameter_storage_class,
    parameters_require_types,
};
use crate::resolution::Resolution;
use crate::specifiers::{declaration_specifier, fail, messages_view, seen_before, Specifiers};
use crate::state::{
    diagnostics_view, failure, lemma_cursor_follows, lemma_skip_error, lexeme_view,
    lexemes_view, lexical_reports, outcome_view, outcomes_view, token_view, Diagnostic, Lexeme,
    Outcome, Severity, SpecDeclarator, SpecOutcome, State,
};
use std::collections::VecDeque;
use vstd::prelude::*;

verus! {

/// A parser over the lexemes of one source text. Statements and errors are
/// pulled from it one at a time with [`Parser::next`]; warnings and lexical
/// errors are collected beside them as diagnostics.
#[derive(Debug)]
pub struct Parser {
    tokens: VecDeque<Lexeme>,
    pending: VecDeque<Outcome>,
    last_location: Option<Location>,
    current: Option<Locatable<Token>>,
    reports: Vec<Diagnostic>,
}

impl View for Parser {
    type V = State;

    closed spec fn view(&self) -> State {
        State {
            input: lexemes_view(self.tokens@),
            current: token_view(self.current),
            last_location: self.last_location,
            pending: outcomes_view(self.pending@),
            reports: diagnostics_view(self.reports@),
        }
    }
}

/// What the next token begins after a declarator.
#[derive(Clone, Copy, PartialEq, Eq, Structural)]
enum Suffix {
    Array,
    Function,
    End,
}

/// The models of a list of tokens, in order.
pub open spec fn tokens_view(tokens: Seq<Token>) -> Seq<SpecToken> {
    tokens.map_values(|token: Token| token@)
}

impl Parser {
    /// A parser that has read nothing of the given lexemes.
    pub fn new(tokens: Vec<Lexeme>) -> (parser: Parser)
        ensures
            parser@ == State::start(lexemes_view(tokens@)),
    {
        let ghost all = tokens@;
        let mut rest = tokens;
        let mut queue: VecDeque<Lexeme> = VecDeque::new();
        loop
            invariant
                rest@ + queue@ == all,
            ensures
                queue@ == all,
            decreases rest.len(),
        {
            match rest.pop() {
                Some(lexeme) => {
                    queue.push_front(lexeme);
                    assert(rest@ + queue@ =~= all);
                },
                None => {
                    assert(rest@ + queue@ =~= queue@);
                    break ;
                },
            }
        }
        let parser = Parser {
            tokens: queue,
            pending: VecDeque::new(),
            last_location: None,
            current: None,
            reports: Vec::new(),
        };
        assert(parser@.pending =~= Seq::empty());
        assert(parser@.reports =~= Seq::empty());
        parser
    }

    /// The diagnostics reported so far, oldest first.
    pub fn diagnostics(&self) -> (reports: &Vec<Diagnostic>)
        ensures
            diagnostics_view(reports@) == self@.reports,
    {
        &self.reports
    }

    /// Hands over the diagnostics reported so far, oldest first, and starts
    /// an empty list.
    pub fn take_diagnostics(&mut self) -> (reports: Vec<Diagnostic>)
        ensures
            diagnostics_view(reports@) == old(self)@.reports,
            final(self)@ == (State { reports: Seq::empty(), ..old(self)@ }),
    {
        let mut reports: Vec<Diagnostic> = Vec::new();
        std::mem::swap(&mut self.reports, &mut reports);
        assert(self@.reports =~= Seq::empty());
        reports
    }

    /// Whether any lexeme has been read, so that a diagnostic has a place to
    /// point at even at the end of input.
    pub fn started(&self) -> (yes: bool)
        ensures
            yes == self@.started(),
    {
        self.last_location.is_some()
    }

    /// Looks at the next token and tells whether a diagnostic about it has a
    /// place to point at: there is a next token, or a lexeme has been read.
    /// This is what the functions that read declarations ask of their caller.
    pub fn locatable(&mut self) -> (yes: bool)
        requires
            old(self)@.wf(),
        ensures
            yes == old(self)@.locatable(),
            final(self)@ == old(self)@.peek(),
            final(self)@.follows(old(self)@),
            final(self)@.locatable() == old(self)@.locatable(),
    {
        proof {
            lemma_cursor_follows(self@);
        }
        self.peek_token();
        self.last_location.is_some()
    }

    fn report(&mut self, severity: Severity, message: String, location: Location)
        ensures
            final(self)@ == old(self)@.report(severity, message@, location),
    {
        self.reports.push(Diagnostic { severity, message, location });
        assert(diagnostics_view(self.reports@) =~= diagnostics_view(old(self).reports@).push(
            (Diagnostic { severity, message, location })@,
        ));
    }

    fn push_pending(&mut self, outcome: Outcome)
        ensures
            final(self)@ == old(self)@.push_pending(outcome_view(outcome)),
    {
        self.pending.push_back(outcome);
        assert(outcomes_view(self.pending@) =~= outcomes_view(old(self).pending@).push(
            outcome_view(outcome),
        ));
    }

    /// Consumes and returns the next token, or nothing at the end of input.
    /// Lexical errors on the way are reported and skipped.
    pub fn next_token(&mut self) -> (token: Option<Locatable<Token>>)
        requires
            old(self)@.wf(),
        ensures
            (token_view(token), final(self)@) == old(self)@.next_token(),
            final(self)@.follows(old(self)@),
            token is Some ==> final(self)@.started(),
    {
        proof {
            lemma_cursor_follows(self@);
        }
        if self.current.is_some() {
            return self.current.take();
        }
        loop
            invariant
                self.current is None,
                self@.next_token() == old(self)@.next_token(),
            decreases self.tokens.len(),
        {
            let ghost before = self@;
            let ghost queue = self.tokens@;
            match self.tokens.pop_front() {
                None => {
                    assert(self@.input =~= Seq::empty());
                    assert(self@.input.take(0) =~= Seq::empty());
                    assert(self@.reports + Seq::empty() =~= self@.reports);
                    assert(self@.next_token() == (None::<Locatable<SpecToken>>, self@));
                    return None;
                },
                Some(Locatable { data: Ok(token), location }) => {
                    self.last_location = Some(location);
                    proof {
                        assert(before.input[0] == lexeme_view(queue[0]));
                        assert(before.input.take(0) =~= Seq::empty());
                        assert(before.reports + lexical_reports(Seq::empty()) =~= before.reports);
                        assert(before.input.skip(1) =~= self@.input);
                    }
                    return Some(Locatable { data: token, location });
                },
                Some(Locatable { data: Err(message), location }) => {
                    proof {
                        assert(before.input[0] == lexeme_view(queue[0]));
                        lemma_skip_error(before);
                    }
                    self.report(Severity::Error, message, location);
                    self.last_location = Some(location);
                    assert(self@.input =~= before.input.drop_first());
                },
            }
        }
    }

    /// Looks at the next token without consuming it.
    pub fn peek_token(&mut self) -> (token: Option<&Locatable<Token>>)
        requires
            old(self)@.wf(),
        ensures
            final(self)@ == old(self)@.peek(),
            final(self)@.follows(old(self)@),
            match token {
                Some(token) => final(self)@.current == Some(token@) && final(self)@.started(),
                None => final(self)@.current is None,
            },
    {
        proof {
            lemma_cursor_follows(self@);
        }
        if self.current.is_none() {
            self.current = self.next_token();
        }
        self.current.as_ref()
    }

    /// The place of the next token, or at the end of input the place of the
    /// lexeme read last.
    pub fn next_location(&mut self) -> (location: Location)
        requires
            old(self)@.wf(),
            old(self)@.locatable(),
        ensures
            (location, final(self)@) == old(self)@.next_location(),
            final(self)@.follows(old(self)@),
            final(self)@.started(),
    {
        match self.peek_token() {
            Some(token) => token.location,
            None => self.last_location.unwrap(),
        }
    }

    /// Consumes the next token if it is `next`.
    pub fn match_next(&mut self, next: Token) -> (token: Option<Locatable<Token>>)
        requires
            old(self)@.wf(),
        ensures
            (token_view(token), final(self)@) == old(self)@.match_next(next@),
            final(self)@.follows(old(self)@),
            token is Some ==> final(self)@.started(),
    {
        let choices = [next];
        assert(tokens_view(choices@) =~= seq![next@]);
        self.match_any(choices.as_slice())
    }

    /// Consumes the next token if it is one of `choices`.
    pub fn match_any(&mut self, choices: &[Token]) -> (token: Option<Locatable<Token>>)
        requires
            old(self)@.wf(),
        ensures
            (token_view(token), final(self)@) == old(self)@.match_any(tokens_view(choices@)),
            final(self)@.follows(old(self)@),
            token is Some ==> final(self)@.started(),
    {
        proof {
            lemma_cursor_follows(self@);
        }
        let found = match self.peek_token() {
            Some(token) => {
                let mut found = false;
                let mut i: usize = 0;
                while i < choices.len() && !found
                    invariant
                        i <= choices.len(),
                        found ==> tokens_view(choices@).contains(token@.data),
                        !found ==> forall|j: int|
                            0 <= j < i ==> tokens_view(choices@)[j] != token@.data,
                    decreases choices.len() - i + if found {
                        0int
                    } else {
                        1int
                    },
                {
                    if choices[i] == token.data {
                        assert(tokens_view(choices@)[i as int] == token@.data);
                        found = true;
                    } else {
                        i += 1;
                    }
                }
                found
            },
            None => false,
        };
        if found {
            self.next_token()
        } else {
            None
        }
    }

    /// Consumes the next token if it is `next`, and records an error if it
    /// is not. Returns whether it was, and the place for a diagnostic.
    pub fn expect(&mut self, next: Token) -> (found: (bool, Location))
        requires
            old(self)@.wf(),
            old(self)@.locatable(),
        ensures
            (found.0, found.1, final(self)@) == old(self)@.expect(next@),
            final(self)@.follows(old(self)@),
            final(self)@.started(),
    {
        proof {
            lemma_cursor_follows(self@);
        }
        match self.peek_token() {
            Some(token) => {
                let location = token.location;
                if token.data == next {
                    self.next_token();
                    (true, location)
                } else {
                    let message = expected(&next, Some(&token.data));
                    self.push_pending(Locatable { data: Err(message), location });
                    (false, location)
                }
            },
            None => {
                let location = self.last_location.unwrap();
                let message = expected(&next, None);
                self.push_pending(Locatable { data: Err(message), location });
                (false, location)
            },
        }
    }

    /// Reads the size of an array. One token is consumed: an integer literal
    /// is the size; anything else stands for the size ten.
    pub fn parse_expr(&mut self) -> (size: Expr)
        requires
            old(self)@.wf(),
        ensures
            (size@, final(self)@) == old(self)@.parse_expr(),
            final(self)@.follows(old(self)@),
    {
        match self.next_token() {
            Some(Locatable { data: Token::Int(size), .. }) => Expr::Int(Token::Int(size)),
            _ => Expr::Int(Token::Int(10)),
        }
    }

    /// Reads the specifiers of a declaration that begins with the keyword
    /// `start`, already consumed, and resolves them to a storage class,
    /// qualifiers and a type, or to the first error among them.
    #[verifier::rlimit(40)]
    pub fn declaration_specifiers(&mut self, start: Keyword) -> (resolved: Result<
        (StorageClass, Qualifiers, Type),
        Locatable<String>,
    >)
        requires
            old(self)@.wf(),
            old(self)@.locatable(),
        ensures
            (resolved_view(resolved), final(self)@) == old(self)@.declaration_specifiers(start),
            final(self)@.follows(old(self)@),
            final(self)@.started(),
    {
        reveal(State::declaration_specifiers);
        let mut seen: Vec<Keyword> = Vec::new();
        seen.push(start);
        let mut specifiers = Specifiers {
            storage_class: match StorageClass::try_from(start) {
                Ok(class) => Some(class),
                Err(_) => None,
            },
            qualifiers: Qualifiers {
                c_const: start == Keyword::Const,
                volatile: start == Keyword::Volatile,
            },
            ctype: match BaseType::try_from(start) {
                Ok(base) => Some(base),
                Err(_) => None,
            },
            signed: if start == Keyword::Signed {
                Some(true)
            } else if start == Keyword::Unsigned {
                Some(false)
            } else {
                None
            },
            errors: Vec::new(),
        };
        let ghost mut run: Seq<Locatable<Keyword>> = Seq::empty();
        proof {
            assert(seen@ =~= seq![start]);
            assert(seen@[0] == start);
            assert(seen@.to_set() =~= set![start]);
            assert(specifiers@.errors =~= Seq::empty());
        }
        loop
            invariant
                self@.follows(old(self)@),
                self@.locatable(),
                seen@.to_set() == Resolution::of(start, run).seen,
                specifiers@ == Resolution::of(start, run).specifiers,
                self@.specifier_run(seen@.to_set(), run) == old(self)@.specifier_run(
                    set![start],
                    Seq::empty(),
                ),
            ensures
                self@.follows(old(self)@),
                self@.started(),
                specifiers@ == Resolution::of(start, run).specifiers,
                (run, self@) == old(self)@.specifier_run(set![start], Seq::empty()),
            decreases self@.remaining(),
        {
            let ghost before = self@;
            let keyword = match self.peek_token() {
                Some(Locatable { data: Token::Keyword(keyword), location }) => {
                    if keyword.is_decl_specifier() {
                        Locatable { data: *keyword, location: *location }
                    } else {
                        break ;
                    }
                },
                _ => {
                    break ;
                },
            };
            self.next_token();
            proof {
                assert(before.peek().specifier() == Some(keyword));
                assert(self@ == before.peek().consume());
                assert(run.push(keyword).drop_last() =~= run);
            }
            if !seen_before(&seen, keyword.data) {
                proof {
                    seen@.lemma_push_to_set_commute(keyword.data);
                }
                seen.push(keyword.data);
                declaration_specifier(keyword.data, &mut specifiers, keyword.location);
            } else {
                assert(seen@.to_set().insert(keyword.data) =~= seen@.to_set());
                if keyword.data.is_qualifier() || keyword.data.is_storage_class() || keyword.data
                    == Keyword::Signed || keyword.data == Keyword::Unsigned {
                    self.report(
                        Severity::Warning,
                        duplicate_specifier(keyword.data),
                        keyword.location,
                    );
                } else if keyword.data != Keyword::Long {
                    fail(
                        &mut specifiers.errors,
                        duplicate_basic_type(keyword.data),
                        keyword.location,
                    );
                }
            }
            proof {
                run = run.push(keyword);
            }
        }
        let ghost scanned = self@;
        let ghost errors = specifiers@.errors;
        let ghost resolved = specifiers@;
        while specifiers.errors.len() > 1
            invariant
                specifiers.storage_class == resolved.storage_class,
                specifiers.qualifiers == resolved.qualifiers,
                specifiers.ctype == resolved.ctype,
                specifiers.signed == resolved.signed,
                0 <= specifiers.errors.len() <= errors.len(),
                messages_view(specifiers.errors@) == errors.take(specifiers.errors.len() as int),
                errors.len() > 0 ==> specifiers.errors.len() > 0,
                self@ == (State {
                    pending: failures(errors.skip(specifiers.errors.len() as int))
                        + scanned.pending,
                    ..scanned
                }),
            decreases specifiers.errors.len(),
        {
            let ghost held = specifiers.errors@;
            let ghost queue = self.pending@;
            let error = specifiers.errors.pop().unwrap();
            self.pending.push_front(Locatable { location: error.location, data: Err(error.data) });
            proof {
                let n = specifiers.errors.len() as int;
                assert(messages_view(specifiers.errors@) =~= errors.take(n));
                assert(messages_view(held)[n] == errors[n]);
                assert(failures(errors.skip(n)) =~= seq![failures(errors.skip(n))[0]] + failures(
                    errors.skip(n + 1),
                ));
                assert(outcomes_view(self.pending@) =~= seq![
                    outcome_view(Locatable { location: error.location, data: Err(error.data) }),
                ] + outcomes_view(queue));
                assert(self@.pending =~= failures(errors.skip(n)) + scanned.pending);
            }
        }
        proof {
            if errors.len() == 0 {
                assert(failures(errors.skip(0)) + scanned.pending =~= scanned.pending);
            }
        }
        if specifiers.errors.len() > 0 {
            assert(messages_view(specifiers.errors@)[0] == errors[0]);
            return Err(specifiers.errors.pop().unwrap());
        }
        let signed = match specifiers.signed {
            Some(signed) => signed,
            None => true,
        };
        let ctype = match specifiers.ctype {
            Some(base) => base.with_sign(signed),
            None => {
                if specifiers.signed.is_none() {
                    let location = self.next_location();
                    self.report(Severity::Warning, missing_type_specifier(), location);
                }
                Type::Int(signed)
            },
        };
        let class = match specifiers.storage_class {
            Some(class) => class,
            None => StorageClass::Auto,
        };
        Ok((class, specifiers.qualifiers, ctype))
    }

    /// Reads the qualifiers that follow a `*`.
    fn pointer_qualifiers(&mut self) -> (qualifiers: Qualifiers)
        requires
            old(self)@.wf(),
        ensures
            (qualifiers, final(self)@) == old(self)@.pointer_qualifiers(
                Qualifiers { c_const: false, volatile: false },
            ),
            final(self)@.follows(old(self)@),
    {
        let mut qualifiers = Qualifiers { c_const: false, volatile: false };
        let choices = [Token::Keyword(Keyword::Const), Token::Keyword(Keyword::Volatile)];
        assert(tokens_view(choices@) =~= seq![
            SpecToken::Keyword(Keyword::Const),
            SpecToken::Keyword(Keyword::Volatile),
        ]);
        loop
            invariant
                self@.follows(old(self)@),
                tokens_view(choices@) == seq![
                    SpecToken::Keyword(Keyword::Const),
                    SpecToken::Keyword(Keyword::Volatile),
                ],
                self@.pointer_qualifiers(qualifiers) == old(self)@.pointer_qualifiers(
                    Qualifiers { c_const: false, volatile: false },
                ),
            decreases self@.remaining(),
        {
            match self.match_any(choices.as_slice()) {
                Some(Locatable { data: Token::Keyword(keyword), location }) => {
                    if keyword == Keyword::Const {
                        if qualifiers.c_const {
                            self.report(
                                Severity::Warning,
                                duplicate_pointer_qualifier(keyword),
                                location,
                            );
                        } else {
                            qualifiers.c_const = true;
                        }
                    } else {
                        if qualifiers.volatile {
                            self.report(
                                Severity::Warning,
                                duplicate_pointer_qualifier(keyword),
                                location,
                            );
                        } else {
                            qualifiers.volatile = true;
                        }
                    }
                },
                _ => {
                    return qualifiers;
                },
            }
        }
    }

    /// Reads one declarator around the type `ctype`: the name, if there is
    /// one, and the type composed around `ctype`; or the error in its place.
    /// Without `allow_abstract` a declarator that was read has a name.
    #[verifier::rlimit(40)]
    pub fn declarator(&mut self, ctype: &Type, allow_abstract: bool) -> (declared: Locatable<
        Result<(Option<String>, Type), String>,
    >)
        requires
            old(self)@.wf(),
            old(self)@.locatable(),
        ensures
            (declared_view(declared), final(self)@) == old(self)@.declarator(
                ctype@,
                allow_abstract,
            ),
            final(self)@.follows(old(self)@),
            final(self)@.started(),
            !allow_abstract ==> (declared.data matches Ok(named) ==> named.0 is Some),
        decreases old(self)@.remaining(), 1nat,
    {
        proof {
            lemma_cursor_follows(self@);
        }
        let prefix = match self.peek_token() {
            None => {
                let location = self.next_location();
                return Locatable { location, data: Err(expected_type()) };
            },
            Some(token) => match &token.data {
                Token::LeftParen => {
                    self.next_token();
                    let inner = self.declarator(ctype, allow_abstract);
                    self.expect(Token::RightParen);
                    match inner.data {
                        Ok(named) => Locatable { location: inner.location, data: named },
                        Err(message) => {
                            return Locatable { location: inner.location, data: Err(message) };
                        },
                    }
                },
                Token::Star => {
                    self.next_token();
                    let qualifiers = self.pointer_qualifiers();
                    let inner = self.declarator(ctype, allow_abstract);
                    match inner.data {
                        Ok((name, pointee)) => Locatable {
                            location: inner.location,
                            data: (name, Type::Pointer(Box::new(pointee), qualifiers)),
                        },
                        Err(message) => {
                            return Locatable { location: inner.location, data: Err(message) };
                        },
                    }
                },
                Token::Id(_) => {
                    let location = token.location;
                    let name = match self.next_token() {
                        Some(Locatable { data: Token::Id(name), .. }) => name,
                        _ => vstd::pervasive::unreached(),
                    };
                    Locatable { location, data: (Some(name), ctype.clone()) }
                },
                other => {
                    let location = token.location;
                    if allow_abstract {
                        Locatable { location, data: (None, ctype.clone()) }
                    } else {
                        return Locatable { location, data: Err(expected_declarator(other)) };
                    }
                },
            },
        };
        self.postfix_type(prefix)
    }

    /// Applies the suffixes that follow to the declarator `prefix`: arrays
    /// and functions, from left to right. The name stays as it is.
    #[verifier::rlimit(40)]
    pub fn postfix_type(&mut self, prefix: Locatable<(Option<String>, Type)>) -> (declared:
        Locatable<Result<(Option<String>, Type), String>>)
        requires
            old(self)@.wf(),
        ensures
            (declared_view(declared), final(self)@) == old(self)@.postfix_type(
                declarator_view(prefix),
            ),
            final(self)@.follows(old(self)@),
            declared.data matches Ok(named) && (named.0 is Some <==> prefix.data.0 is Some),
        decreases old(self)@.remaining(), 0nat,
    {
        let Locatable { data: (name, ctype), location } = prefix;
        let mut ctype = ctype;
        loop
            invariant
                self@.follows(old(self)@),
                name == prefix.data.0,
                location == prefix.location,
                self@.postfix_type(Locatable { data: (name_view(name), ctype@), location })
                    == old(self)@.postfix_type(declarator_view(prefix)),
            decreases self@.remaining(),
        {
            proof {
                lemma_cursor_follows(self@);
                lemma_cursor_follows(self@.peek());
            }
            let suffix = match self.peek_token() {
                Some(token) => match &token.data {
                    Token::LeftBracket => Suffix::Array,
                    Token::LeftParen => Suffix::Function,
                    _ => Suffix::End,
                },
                None => Suffix::End,
            };
            if suffix == Suffix::Array {
                self.expect(Token::LeftBracket);
                if self.match_next(Token::RightBracket).is_some() {
                    ctype = Type::Array(Box::new(ctype), ArrayType::Unbounded);
                } else {
                    let size = self.parse_expr();
                    self.expect(Token::RightBracket);
                    ctype = Type::Array(Box::new(ctype), ArrayType::Fixed(Box::new(size)));
                }
            } else if suffix == Suffix::Function {
                ctype = self.parameter_type_list(ctype);
            } else {
                return Locatable { location, data: Ok((name, ctype)) };
            }
        }
    }

    /// Reads a parameter list, parentheses included, and returns the type of
    /// the function that has it and returns `return_type`.
    #[verifier::rlimit(40)]
    pub fn parameter_type_list(&mut self, return_type: Type) -> (function: Type)
        requires
            old(self)@.wf(),
            old(self)@.locatable(),
        ensures
            (function@, final(self)@) == old(self)@.parameter_type_list(return_type@),
            final(self)@.follows(old(self)@),
            final(self)@.started(),
            final(self)@.remaining() <= old(self)@.expect(SpecToken::LeftParen).2.remaining(),
        decreases old(self)@.expect(SpecToken::LeftParen).2.remaining(), 4nat,
    {
        self.expect(Token::LeftParen);
        let ghost opened = self@;
        let mut params: Vec<Symbol> = Vec::new();
        let mut errors: VecDeque<Outcome> = VecDeque::new();
        let close = self.match_next(Token::RightParen);
        let ghost after = self@;
        proof {
            assert(opened == old(self)@.expect(SpecToken::LeftParen).2);
            assert(after == opened.match_next(SpecToken::RightParen).1);
            assert(token_view(close) == opened.match_next(SpecToken::RightParen).0);
            assert(symbols_view(params@) =~= Seq::empty());
            assert(outcomes_view(errors@) =~= Seq::empty());
            assert(after.remaining() <= opened.remaining());
        }
        if close.is_some() {
            proof {
                lemma_parameter_list_empty(old(self)@, return_type@);
            }
            return function(return_type, params, false);
        }
        proof {
            lemma_parameter_list_filled(old(self)@, return_type@);
        }

        loop
            invariant
                self@.follows(old(self)@),
                self@.started(),
                self@.remaining() <= old(self)@.expect(SpecToken::LeftParen).2.remaining(),
                self@.parameters(return_type@, symbols_view(params@), outcomes_view(errors@))
                    == old(self)@.parameter_type_list(return_type@),
            decreases self@.remaining(),
        {
            let ghost before = self@;
            let ghost listed = symbols_view(params@);
            let ghost found = outcomes_view(errors@);
            let ellipsis = self.match_next(Token::Ellipsis);
            let ghost after = self@;
            assert(token_view(ellipsis) == before.match_next(SpecToken::Ellipsis).0);
            assert(after == before.match_next(SpecToken::Ellipsis).1);
            if let Some(token) = ellipsis {
                if params.len() == 0 {
                    push_outcome(
                        &mut errors,
                        Locatable {
                            location: token.location,
                            data: Err(parameter_before_ellipsis()),
                        },
                    );
                }
                let ghost joined = outcomes_view(errors@);
                self.expect(Token::RightParen);
                self.append_pending(&mut errors);
                assert(before.match_next(SpecToken::Ellipsis).0 == Some(token@));
                assert(joined == if listed.len() == 0 {
                    found.push(failure(parameter_before_ellipsis_text(), token@.location))
                } else {
                    found
                });
                proof {
                    lemma_parameters_variadic(before, return_type@, listed, found);
                }
                return function(return_type, params, true);
            }
            self.parameter(&mut params, &mut errors);
            let ghost named = self@;
            let ghost all = symbols_view(params@);
            let ghost joined = outcomes_view(errors@);
            assert(before.match_next(SpecToken::Ellipsis).0 is None);
            assert(after.parameter(listed, found) == (all, joined, named));
            let comma = self.match_next(Token::Comma);
            let ghost continued = self@;
            assert(token_view(comma) == named.match_next(SpecToken::Comma).0);
            assert(continued == named.match_next(SpecToken::Comma).1);
            if comma.is_none() {
                self.expect(Token::RightParen);
                let ghost closed = self@;
                self.append_pending(&mut errors);
                assert(closed == continued.expect(SpecToken::RightParen).2);
                assert(named.match_next(SpecToken::Comma).0 is None);
                proof {
                    lemma_parameters_end(before, return_type@, listed, found);
                }
                return function(return_type, params, false);
            }
            assert(named.match_next(SpecToken::Comma).0 is Some);
            proof {
                lemma_parameters_continue(before, return_type@, listed, found);
            }
        }
    }

    /// Reads one parameter and adds it to `params`; the errors found in it
    /// are added to `errors`.
    #[verifier::rlimit(40)]
    pub fn parameter(&mut self, params: &mut Vec<Symbol>, errors: &mut VecDeque<Outcome>)
        requires
            old(self)@.wf(),
            old(self)@.locatable(),
        ensures
            (symbols_view(final(params)@), outcomes_view(final(errors)@), final(self)@) == old(
                self,
            )@.parameter(symbols_view(old(params)@), outcomes_view(old(errors)@)),
            final(self)@.follows(old(self)@),
            final(self)@.started(),
        decreases old(self)@.remaining(), 2nat,
    {
        let ghost listed = symbols_view(params@);
        let ghost found = outcomes_view(errors@);
        let specifier: Option<Locatable<Keyword>> = match self.peek_token() {
            Some(Locatable { data: Token::Keyword(keyword), location }) => {
                if keyword.is_decl_specifier() {
                    Some(Locatable { data: *keyword, location: *location })
                } else {
                    None
                }
            },
            _ => None,
        };
        let ghost peeked = self@;
        assert(peeked == old(self)@.peek());
        assert(specifier == peeked.specifier());
        proof {
            lemma_cursor_follows(peeked);
        }
        let (start, location) = match specifier {
            Some(keyword) => {
                self.next_token();
                (keyword.data, keyword.location)
            },
            None => {
                let location = self.next_location();
                push_outcome(errors, Locatable { location, data: Err(parameters_require_types()) });
                (Keyword::Int, location)
            },
        };
        let ghost typed = self@;
        assert(typed == if specifier is Some {
            peeked.consume()
        } else {
            peeked
        });
        let resolved = self.declaration_specifiers(start);
        let ghost resolved_model = resolved_view(resolved);
        let ghost resolved_state = self@;
        assert((resolved_model, resolved_state) == typed.declaration_specifiers(start));
        let (class, qualifiers, base) = match resolved {
            Ok(named) => named,
            Err(_) => (
                StorageClass::Auto,
                Qualifiers { c_const: false, volatile: false },
                Type::Int(true),
            ),
        };
        let ghost base_model = base@;
        let declared = self.declarator(&base, true);
        let ghost declared_model = declared_view(declared);
        assert((declared_model, self@) == resolved_state.declarator(base_model, true));
        let (name, ctype) = match declared.data {
            Err(message) => {
                push_outcome(errors, Locatable { location: declared.location, data: Err(message) });
                (None, None)
            },
            Ok((name, ctype)) => (name, Some(ctype)),
        };
        if class != StorageClass::Auto {
            push_outcome(
                errors,
                Locatable { location, data: Err(parameter_storage_class(class, &name)) },
            );
        }
        if let Some(ctype) = ctype {
            let id = match name {
                Some(name) => name,
                None => String::new(),
            };
            let parameter = Symbol { id, ctype, qualifiers, storage_class: StorageClass::Auto };
            proof {
                params@.lemma_push_map_commute(|symbol: Symbol| symbol@, parameter);
            }
            params.push(parameter);
        }
        assert((symbols_view(params@), outcomes_view(errors@), self@) == old(self)@.parameter(
            listed,
            found,
        )) by {
            reveal(State::parameter);
        }
    }

    /// Reads the declaration that begins with the keyword `start`, already
    /// consumed, and returns its first outcome. Further declarators of the
    /// same declaration wait in the queue. After a declaration that declares
    /// nothing, the outcome is that of what follows.
    #[verifier::rlimit(40)]
    pub fn declaration(&mut self, start: Keyword) -> (outcome: Option<Outcome>)
        requires
            old(self)@.wf(),
            old(self)@.locatable(),
        ensures
            (outcome_option_view(outcome), final(self)@) == old(self)@.declaration(start),
            final(self)@.follows(old(self)@),
            final(self)@.started(),
            outcome is None ==> final(self)@.pending.len() == 0 && final(self)@.remaining() == 0,
        decreases old(self)@.remaining(), 1nat,
    {
        let (class, qualifiers, ctype) = match self.declaration_specifiers(start) {
            Ok(named) => named,
            Err(error) => {
                return Some(Locatable { data: Err(error.data), location: error.location });
            },
        };
        let ghost resolved = self@;
        loop
            invariant_except_break
                self@.declarators(class, qualifiers, ctype@) == resolved.declarators(
                    class,
                    qualifiers,
                    ctype@,
                ),
            invariant
                self@.follows(old(self)@),
                self@.started(),
            ensures
                self@.follows(old(self)@),
                self@.started(),
                self@ == resolved.declarators(class, qualifiers, ctype@),
            decreases self@.remaining(),
        {
            let ghost before = self@;
            let semicolon = self.match_next(Token::Semicolon);
            let ghost after = self@;
            assert(token_view(semicolon) == before.match_next(SpecToken::Semicolon).0);
            assert(after == before.match_next(SpecToken::Semicolon).1);
            if semicolon.is_some() {
                proof {
                    lemma_declarators_done(before, class, qualifiers, ctype@);
                }
                break ;
            }
            let declared = self.declarator(&ctype, false);
            let ghost declared_model = declared_view(declared);
            let ghost named = self@;
            assert((declared_model, named) == after.declarator(ctype@, false));
            let location = declared.location;
            match declared.data {
                Ok((name, ctype)) => {
                    let symbol = Symbol {
                        storage_class: class,
                        qualifiers,
                        ctype,
                        id: name.unwrap(),
                    };
                    self.push_pending(Locatable { location, data: Ok(Stmt::Declaration(symbol)) });
                },
                Err(message) => {
                    self.push_pending(Locatable { location, data: Err(message) });
                },
            }
            let ghost recorded = self@;
            assert(recorded == named.push_pending(
                declared_outcome(declared_model, class, qualifiers),
            ));
            let comma = self.match_next(Token::Comma);
            let ghost continued = self@;
            assert(token_view(comma) == recorded.match_next(SpecToken::Comma).0);
            assert(continued == recorded.match_next(SpecToken::Comma).1);
            if comma.is_none() {
                self.expect(Token::Semicolon);
                proof {
                    lemma_declarators_end(before, class, qualifiers, ctype@);
                }
                break ;
            }
            proof {
                lemma_declarators_continue(before, class, qualifiers, ctype@);
            }
        }
        let ghost queue = self.pending@;
        match self.pending.pop_front() {
            Some(outcome) => {
                assert(outcomes_view(self.pending@) =~= outcomes_view(queue).skip(1));
                Some(outcome)
            },
            None => {
                assert(outcomes_view(queue) =~= Seq::empty());
                let location = self.next_location();
                self.report(Severity::Warning, declares_nothing(), location);
                self.next()
            },
        }
    }

    /// Hands out the next statement or error: the oldest one that waits in
    /// the queue, or else what the next token begins. Returns nothing once
    /// the queue is empty and the input at its end; until then every call
    /// that finds the queue empty consumes at least one token.
    pub fn next(&mut self) -> (outcome: Option<Outcome>)
        requires
            old(self)@.wf(),
        ensures
            (outcome_option_view(outcome), final(self)@) == old(self)@.next(),
            final(self)@.follows(old(self)@),
            outcome is None ==> final(self)@.pending.len() == 0 && final(self)@.remaining() == 0,
            outcome is Some && old(self)@.pending.len() == 0 ==> final(self)@.remaining() < old(
                self,
            )@.remaining(),
        decreases old(self)@.remaining(), 0nat,
    {
        proof {
            lemma_cursor_follows(self@);
        }
        let ghost queue = self.pending@;
        match self.pending.pop_front() {
            Some(outcome) => {
                assert(outcomes_view(self.pending@) =~= outcomes_view(queue).skip(1));
                Some(outcome)
            },
            None => {
                assert(outcomes_view(queue) =~= Seq::empty());
                match self.next_token() {
                    None => None,
                    Some(Locatable { data: Token::Keyword(keyword), location }) => {
                        if keyword.is_decl_specifier() {
                            self.declaration(keyword)
                        } else {
                            Some(Locatable { data: Err(not_handled()), location })
                        }
                    },
                    Some(Locatable { data: _, location }) => Some(
                        Locatable { data: Err(not_handled()), location },
                    ),
                }
            },
        }
    }

    fn append_pending(&mut self, outcomes: &mut VecDeque<Outcome>)
        ensures
            final(self)@ == old(self)@.append_pending(outcomes_view(old(outcomes)@)),
    {
        self.pending.append(outcomes);
        assert(outcomes_view(self.pending@) =~= outcomes_view(old(self).pending@) + outcomes_view(
            old(outcomes)@,
        ));
    }
}

/// The model of what specifiers resolve to.
pub open spec fn resolved_view(
    resolved: Result<(StorageClass, Qualifiers, Type), Locatable<String>>,
) -> SpecResolved {
    match resolved {
        Ok((class, qualifiers, ctype)) => Ok((class, qualifiers, ctype@)),
        Err(error) => Err(error@),
    }
}

/// The model of an outcome that may be absent.
pub open spec fn outcome_option_view(outcome: Option<Outcome>) -> Option<SpecOutcome> {
    match outcome {
        Some(outcome) => Some(outcome_view(outcome)),
        None => None,
    }
}

/// The model of a name that may be absent.
pub open spec fn name_view(name: Option<String>) -> Option<Seq<char>> {
    match name {
        Some(name) => Some(name@),
        None => None,
    }
}

/// The model of a declarator.
pub open spec fn declarator_view(declarator: Locatable<(Option<String>, Type)>) -> Locatable<
    SpecDeclarator,
> {
    Locatable {
        data: (name_view(declarator.data.0), declarator.data.1@),
        location: declarator.location,
    }
}

/// The model of a declarator that was read, or of the error in its place.
pub open spec fn declared_view(
    declared: Locatable<Result<(Option<String>, Type), String>>,
) -> SpecDeclared {
    Locatable {
        data: match declared.data {
            Ok((name, ctype)) => Ok((name_view(name), ctype@)),
            Err(message) => Err(message@),
        },
        location: declared.location,
    }
}

fn function(return_type: Type, params: Vec<Symbol>, varargs: bool) -> (function: Type)
    ensures
        function@ == function_type(return_type@, symbols_view(params@), varargs),
{
    let function = FunctionType { return_type: Box::new(return_type), params, varargs };
    proof {
        lemma_function_view(function);
    }
    Type::Function(function)
}

fn push_outcome(outcomes: &mut VecDeque<Outcome>, outcome: Outcome)
    ensures
        outcomes_view(final(outcomes)@) == outcomes_view(old(outcomes)@).push(
            outcome_view(outcome),
        ),
{
    outcomes.push_back(outcome);
    assert(outcomes_view(outcomes@) =~= outcomes_view(old(outcomes)@).push(outcome_view(outcome)));
}

} // verus!
