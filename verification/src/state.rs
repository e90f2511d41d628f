//! The mathematical model of a parser at one moment: the input that is
//! left, the token looked at but not yet consumed, the results waiting to be
//! handed out and the diagnostics reported so far; and what each operation of
//! the token cursor makes of it.

use crate::data::{
    Locatable, Location, SpecExpr, SpecStmt, SpecToken, SpecType, Stmt, Token,
};
use crate::message::expected_text;
use vstd::prelude::*;

verus! {

/// How serious a diagnostic is: an error blocks the statement it occurs in, a
/// warning does not.
#[derive(Clone, Copy, Debug, PartialEq, Eq, Structural)]
pub enum Severity {
    Error,
    Warning,
}

/// A message about the source, reported beside the statements.
#[derive(Debug, PartialEq)]
pub struct Diagnostic {
    pub severity: Severity,
    pub message: String,
    pub location: Location,
}

/// The model of a [`Diagnostic`].
pub struct SpecDiagnostic {
    pub severity: Severity,
    pub message: Seq<char>,
    pub location: Location,
}

impl View for Diagnostic {
    type V = SpecDiagnostic;

    open spec fn view(&self) -> SpecDiagnostic {
        SpecDiagnostic { severity: self.severity, message: self.message@, location: self.location }
    }
}

impl Clone for Diagnostic {
    fn clone(&self) -> (copy: Diagnostic)
        ensures
            copy@ == self@,
    {
        Diagnostic {
            severity: self.severity,
            message: self.message.clone(),
            location: self.location,
        }
    }
}

/// What the scanner hands over: a token, or the message of a lexical error.
pub type Lexeme = Locatable<Result<Token, String>>;

/// What the parser hands out: a statement, or the message of an error.
pub type Outcome = Locatable<Result<Stmt, String>>;

/// The model of a [`Lexeme`].
pub type SpecLexeme = Locatable<Result<SpecToken, Seq<char>>>;

/// The model of an [`Outcome`].
pub type SpecOutcome = Locatable<Result<SpecStmt, Seq<char>>>;

/// The model of a declarator: the name, if there is one, and the type.
pub type SpecDeclarator = (Option<Seq<char>>, SpecType);

/// The model of one lexeme.
pub open spec fn lexeme_view(lexeme: Lexeme) -> SpecLexeme {
    Locatable {
        data: match lexeme.data {
            Ok(token) => Ok(token@),
            Err(message) => Err(message@),
        },
        location: lexeme.location,
    }
}

/// The model of one outcome.
pub open spec fn outcome_view(outcome: Outcome) -> SpecOutcome {
    Locatable {
        data: match outcome.data {
            Ok(statement) => Ok(statement@),
            Err(message) => Err(message@),
        },
        location: outcome.location,
    }
}

/// The models of a stretch of input, in order.
pub open spec fn lexemes_view(lexemes: Seq<Lexeme>) -> Seq<SpecLexeme> {
    lexemes.map_values(|lexeme: Lexeme| lexeme_view(lexeme))
}

/// The models of a list of outcomes, in order.
pub open spec fn outcomes_view(outcomes: Seq<Outcome>) -> Seq<SpecOutcome> {
    outcomes.map_values(|outcome: Outcome| outcome_view(outcome))
}

/// The models of a list of diagnostics, in order.
pub open spec fn diagnostics_view(diagnostics: Seq<Diagnostic>) -> Seq<SpecDiagnostic> {
    diagnostics.map_values(|diagnostic: Diagnostic| diagnostic@)
}

/// The model of a token that may be absent.
pub open spec fn token_view(token: Option<Locatable<Token>>) -> Option<Locatable<SpecToken>> {
    match token {
        Some(token) => Some(token@),
        None => None,
    }
}

/// The error outcome with the given message and place.
pub open spec fn failure(message: Seq<char>, location: Location) -> SpecOutcome {
    Locatable { data: Err(message), location }
}

/// The number of lexical errors that stand before the first token.
pub open spec fn leading_errors(input: Seq<SpecLexeme>) -> nat
    decreases input.len(),
{
    if input.len() == 0 || input[0].data is Ok {
        0
    } else {
        1 + leading_errors(input.drop_first())
    }
}

/// The tokens among a stretch of input, in order.
pub open spec fn tokens_of(input: Seq<SpecLexeme>) -> Seq<Locatable<SpecToken>>
    decreases input.len(),
{
    if input.len() == 0 {
        Seq::empty()
    } else {
        let rest = tokens_of(input.drop_first());
        match input[0].data {
            Ok(token) => seq![Locatable { data: token, location: input[0].location }] + rest,
            Err(_) => rest,
        }
    }
}

/// The reports of a stretch of lexical errors, in order.
pub open spec fn lexical_reports(errors: Seq<SpecLexeme>) -> Seq<SpecDiagnostic> {
    errors.map_values(
        |lexeme: SpecLexeme|
            SpecDiagnostic {
                severity: Severity::Error,
                message: lexeme.data->Err_0,
                location: lexeme.location,
            },
    )
}

/// The state of a parser.
pub struct State {
    /// The input not yet read, lexical errors included.
    pub input: Seq<SpecLexeme>,
    /// The token that was looked at and not yet consumed.
    pub current: Option<Locatable<SpecToken>>,
    /// The place of the lexeme read last.
    pub last_location: Option<Location>,
    /// The outcomes found and not yet handed out, oldest first.
    pub pending: Seq<SpecOutcome>,
    /// The diagnostics reported so far, oldest first.
    pub reports: Seq<SpecDiagnostic>,
}

impl State {
    /// The state of a parser that has read nothing of the given input.
    pub open spec fn start(input: Seq<SpecLexeme>) -> State {
        State {
            input,
            current: None,
            last_location: None,
            pending: Seq::empty(),
            reports: Seq::empty(),
        }
    }

    /// The token looked at, if any, lies at the place read last.
    pub open spec fn wf(self) -> bool {
        self.current matches Some(token) ==> self.last_location == Some(token.location)
    }

    /// Whether any lexeme has been read, so that diagnostics have a place to
    /// point at even at the end of input.
    pub open spec fn started(self) -> bool {
        self.last_location is Some
    }

    /// Whether a diagnostic has a place to point at once the next token has
    /// been looked at: a next token, or a lexeme read before the end of input.
    pub open spec fn locatable(self) -> bool {
        self.peek().started()
    }

    /// How much is left to consume: the unread input and the token looked at.
    pub open spec fn remaining(self) -> nat {
        self.input.len() + if self.current is Some {
            1nat
        } else {
            0nat
        }
    }

    /// Whether this state can follow `earlier`: nothing was put back into the
    /// input, and a parser that had started is still started.
    pub open spec fn follows(self, earlier: State) -> bool {
        &&& self.wf()
        &&& self.remaining() <= earlier.remaining()
        &&& earlier.started() ==> self.started()
    }

    /// The tokens that are still to come, in order: the token looked at,
    /// if there is one, and the tokens of the unread input.
    pub open spec fn tokens(self) -> Seq<Locatable<SpecToken>> {
        match self.current {
            Some(token) => seq![token] + tokens_of(self.input),
            None => tokens_of(self.input),
        }
    }

    /// This state with one more diagnostic.
    pub open spec fn report(
        self,
        severity: Severity,
        message: Seq<char>,
        location: Location,
    ) -> State {
        State { reports: self.reports.push(SpecDiagnostic { severity, message, location }), ..self }
    }

    /// This state with one more outcome at the back of the queue.
    pub open spec fn push_pending(self, outcome: SpecOutcome) -> State {
        State { pending: self.pending.push(outcome), ..self }
    }

    /// This state with more outcomes at the back of the queue.
    pub open spec fn append_pending(self, outcomes: Seq<SpecOutcome>) -> State {
        State { pending: self.pending + outcomes, ..self }
    }

    /// This state without the token looked at.
    pub open spec fn consume(self) -> State {
        State { current: None, ..self }
    }

    /// The next token and the state after consuming it. Lexical errors that
    /// stand before the token are reported, in order, and skipped.
    pub open spec fn next_token(self) -> (Option<Locatable<SpecToken>>, State) {
        match self.current {
            Some(token) => (Some(token), self.consume()),
            None => {
                let skipped = leading_errors(self.input) as int;
                let reports = self.reports + lexical_reports(self.input.take(skipped));
                if skipped < self.input.len() {
                    let lexeme = self.input[skipped];
                    (
                        Some(Locatable { data: lexeme.data->Ok_0, location: lexeme.location }),
                        State {
                            input: self.input.skip(skipped + 1),
                            last_location: Some(lexeme.location),
                            reports,
                            ..self
                        },
                    )
                } else {
                    (
                        None,
                        State {
                            input: Seq::empty(),
                            last_location: if skipped > 0 {
                                Some(self.input[skipped - 1].location)
                            } else {
                                self.last_location
                            },
                            reports,
                            ..self
                        },
                    )
                }
            },
        }
    }

    /// The state after looking at the next token without consuming it; the
    /// token is then `current`.
    pub open spec fn peek(self) -> State {
        match self.current {
            Some(_) => self,
            None => {
                let (token, after) = self.next_token();
                State { current: token, ..after }
            },
        }
    }

    /// The next token, if it is one of `choices`, and the state after
    /// consuming it; else no token, and the state after looking at it.
    pub open spec fn match_any(self, choices: Seq<SpecToken>) -> (
        Option<Locatable<SpecToken>>,
        State,
    ) {
        let peeked = self.peek();
        match peeked.current {
            Some(token) => if choices.contains(token.data) {
                (Some(token), peeked.consume())
            } else {
                (None, peeked)
            },
            None => (None, peeked),
        }
    }

    /// [`State::match_any`] with a single choice.
    pub open spec fn match_next(self, next: SpecToken) -> (Option<Locatable<SpecToken>>, State) {
        self.match_any(seq![next])
    }

    /// The place of the next token, or at the end of input the place read
    /// last, and the state after looking.
    pub open spec fn next_location(self) -> (Location, State)
        recommends
            self.locatable(),
    {
        let peeked = self.peek();
        (
            match peeked.current {
                Some(token) => token.location,
                None => peeked.last_location->0,
            },
            peeked,
        )
    }

    /// Whether the next token is `next`; the place for a diagnostic; and the
    /// state after consuming the token if it is, after recording an error if
    /// it is not.
    pub open spec fn expect(self, next: SpecToken) -> (bool, Location, State)
        recommends
            self.locatable(),
    {
        let peeked = self.peek();
        match peeked.current {
            Some(token) => if token.data == next {
                (true, token.location, peeked.consume())
            } else {
                (
                    false,
                    token.location,
                    peeked.push_pending(
                        failure(expected_text(next, Some(token.data)), token.location),
                    ),
                )
            },
            None => {
                let location = peeked.last_location->0;
                (
                    false,
                    location,
                    peeked.push_pending(failure(expected_text(next, None), location)),
                )
            },
        }
    }

    /// The size of an array and the state after reading it. One token is
    /// consumed: an integer literal is the size; anything else stands for
    /// the size ten.
    pub open spec fn parse_expr(self) -> (SpecExpr, State) {
        let (token, after) = self.next_token();
        (
            match token {
                Some(Locatable { data: SpecToken::Int(size), .. }) => SpecExpr::Int(
                    SpecToken::Int(size),
                ),
                _ => SpecExpr::Int(SpecToken::Int(10)),
            },
            after,
        )
    }
}

/// No more errors lead the input than it has lexemes; they are errors, and
/// what follows them is a token.
pub proof fn lemma_leading_errors(input: Seq<SpecLexeme>)
    ensures
        leading_errors(input) <= input.len(),
        forall|i: int| 0 <= i < leading_errors(input) ==> (#[trigger] input[i]).data is Err,
        leading_errors(input) < input.len() ==> input[leading_errors(input) as int].data is Ok,
    decreases input.len(),
{
    if input.len() != 0 && input[0].data is Err {
        let rest = input.drop_first();
        lemma_leading_errors(rest);
        assert forall|i: int| 0 <= i < leading_errors(input) implies (#[trigger] input[i]).data
            is Err by {
            if i > 0 {
                assert(input[i] == rest[i - 1]);
            }
        }
        if leading_errors(input) < input.len() {
            assert(input[leading_errors(input) as int] == rest[leading_errors(rest) as int]);
        }
    }
}

/// A lexical error at the head of the input is reported and skipped: the
/// next token is the one found after it.
#[verifier::rlimit(40)]
pub proof fn lemma_skip_error(s: State)
    requires
        s.current is None,
        s.input.len() > 0,
        s.input[0].data is Err,
    ensures
        s.next_token() == (State {
            input: s.input.drop_first(),
            last_location: Some(s.input[0].location),
            ..s.report(Severity::Error, s.input[0].data->Err_0, s.input[0].location)
        }).next_token(),
{
    let rest = s.input.drop_first();
    let after = State {
        input: rest,
        last_location: Some(s.input[0].location),
        ..s.report(Severity::Error, s.input[0].data->Err_0, s.input[0].location)
    };
    lemma_leading_errors(s.input);
    lemma_leading_errors(rest);
    let skipped = leading_errors(s.input) as int;
    assert(skipped == leading_errors(rest) + 1);
    assert(s.input.take(skipped) =~= seq![s.input[0]] + rest.take(skipped - 1));
    assert(s.reports + lexical_reports(s.input.take(skipped)) =~= after.reports + lexical_reports(
        rest.take(skipped - 1),
    ));
    if skipped < s.input.len() {
        assert(s.input[skipped] == rest[skipped - 1]);
        assert(s.input.skip(skipped + 1) =~= rest.skip(skipped));
    } else {
        assert(rest.len() == skipped - 1);
        if skipped > 1 {
            assert(s.input[skipped - 1] == rest[skipped - 2]);
        }
    }
}

/// No cursor operation puts anything back into the input, and each one that
/// hands out a token takes it from there.
pub proof fn lemma_cursor_remaining(s: State)
    ensures
        s.next_token().1.remaining() <= s.remaining(),
        s.next_token().0 is Some ==> s.next_token().1.remaining() < s.remaining(),
        s.peek().remaining() <= s.remaining(),
        s.peek().current is Some ==> s.peek().consume().remaining() < s.remaining(),
        s.parse_expr().1.remaining() <= s.remaining(),
        s.next_location().1.remaining() <= s.remaining(),
        forall|choices: Seq<SpecToken>|
            (#[trigger] s.match_any(choices)).1.remaining() <= s.remaining() && (s.match_any(
                choices,
            ).0 is Some ==> s.match_any(choices).1.remaining() < s.remaining()),
        forall|next: SpecToken|
            (#[trigger] s.expect(next)).2.remaining() <= s.remaining() && (s.expect(next).0
                ==> s.expect(next).2.remaining() < s.remaining()),
{
    lemma_leading_errors(s.input);
}

/// Every cursor operation leaves a state that can follow the one it started
/// from.
pub proof fn lemma_cursor_follows(s: State)
    requires
        s.wf(),
    ensures
        s.next_token().1.follows(s),
        s.next_token().0 is Some ==> s.next_token().1.remaining() < s.remaining()
            && s.next_token().1.started(),
        s.next_token().0 is None ==> s.next_token().1.remaining() == 0,
        s.peek().follows(s),
        s.started() ==> s.locatable(),
        s.peek().locatable() == s.locatable(),
        s.peek().current is Some ==> s.peek().started(),
        s.peek().current is None ==> s.peek().remaining() == 0,
        s.peek().peek() == s.peek(),
        s.peek().pending == s.pending,
        s.next_token().1.pending == s.pending,
        s.parse_expr().1.follows(s),
        s.next_location().1.follows(s),
        forall|choices: Seq<SpecToken>|
            (#[trigger] s.match_any(choices)).1.follows(s) && (s.match_any(choices).0 is Some
                ==> s.match_any(choices).1.remaining() < s.remaining()) && s.match_any(
                choices,
            ).1.started() == s.locatable(),
        forall|next: SpecToken|
            (#[trigger] s.expect(next)).2.follows(s) && (s.expect(next).0 ==> s.expect(
                next,
            ).2.remaining() < s.remaining()) && s.expect(next).2.started() == s.locatable(),
{
    lemma_leading_errors(s.input);
}

/// The tokens of a stretch of input are those that stand after the errors
/// that lead it.
pub proof fn lemma_tokens_after_errors(input: Seq<SpecLexeme>)
    ensures
        tokens_of(input) == tokens_of(input.skip(leading_errors(input) as int)),
        leading_errors(input) < input.len() ==> tokens_of(input) == seq![
            Locatable {
                data: input[leading_errors(input) as int].data->Ok_0,
                location: input[leading_errors(input) as int].location,
            },
        ] + tokens_of(input.skip(leading_errors(input) as int + 1)),
        leading_errors(input) >= input.len() ==> tokens_of(input) == Seq::<
            Locatable<SpecToken>,
        >::empty(),
    decreases input.len(),
{
    lemma_leading_errors(input);
    if input.len() == 0 {
        assert(input.skip(0) =~= input);
    } else if input[0].data is Ok {
        assert(input.skip(0) =~= input);
        assert(input.skip(1) =~= input.drop_first());
    } else {
        let rest = input.drop_first();
        let skipped = leading_errors(input) as int;
        lemma_tokens_after_errors(rest);
        lemma_leading_errors(rest);
        assert(input.skip(skipped) =~= rest.skip(skipped - 1));
        if skipped < input.len() {
            assert(input[skipped] == rest[skipped - 1]);
            assert(input.skip(skipped + 1) =~= rest.skip(skipped));
        }
    }
}

/// The cursor hands out the tokens that are still to come, one by one and
/// in order: looking at the next token leaves them as they are, and
/// consuming it takes the first of them.
#[verifier::rlimit(40)]
pub proof fn lemma_cursor_tokens(s: State)
    ensures
        s.peek().tokens() == s.tokens(),
        s.peek().current == if s.tokens().len() > 0 {
            Some(s.tokens()[0])
        } else {
            None
        },
        s.peek().current is Some ==> s.peek().consume().tokens() == s.tokens().skip(1),
        s.next_token().0 == s.peek().current,
        s.next_token().1.tokens() == if s.tokens().len() > 0 {
            s.tokens().skip(1)
        } else {
            s.tokens()
        },
        s.next_location().1.tokens() == s.tokens(),
        s.parse_expr().1.tokens() == s.next_token().1.tokens(),
        forall|choices: Seq<SpecToken>|
            (#[trigger] s.match_any(choices)).1.tokens() == if s.match_any(choices).0 is Some {
                s.tokens().skip(1)
            } else {
                s.tokens()
            },
        forall|next: SpecToken|
            (#[trigger] s.expect(next)).2.tokens() == if s.expect(next).0 {
                s.tokens().skip(1)
            } else {
                s.tokens()
            },
{
    lemma_tokens_after_errors(s.input);
    lemma_leading_errors(s.input);
    let none = Seq::<SpecLexeme>::empty();
    assert(tokens_of(none) =~= Seq::<Locatable<SpecToken>>::empty());
    match s.current {
        Some(token) => {
            assert(s.tokens().skip(1) =~= tokens_of(s.input));
        },
        None => {
            let skipped = leading_errors(s.input) as int;
            if skipped < s.input.len() {
                let rest = tokens_of(s.input.skip(skipped + 1));
                assert(s.tokens().skip(1) =~= rest);
                assert(s.peek().tokens() =~= s.tokens());
            }
        },
    }
}

} // verus!
