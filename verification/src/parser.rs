use crate::lexer::{Token, TokenKind, TokenView};
use crate::parser::expression::{binary, literal, Binary, Expression, Literal};
use crate::parser::grammar::{
    is_expression, lemma_accepted_are_the_expressions, lemma_accepted_is_expression,
    spells_expression,
};
use std::collections::VecDeque;
use vstd::pervasive::unreached;
use vstd::prelude::*;

pub mod expression;
pub mod grammar;

verus! {

/// What was wrong with a line, at one place.
#[derive(Debug, PartialEq, Eq)]
pub enum Diagnostic {
    /// A token of the kind `expected` had to stand where `found` stands;
    /// `None` where the line ends there.
    Expected { expected: TokenKind, found: Option<Token> },
    /// A number or a parenthesised expression had to start where `found`
    /// stands; `None` where the line ends there.
    Unexpected { found: Option<Token> },
    /// The expression is complete and the line goes on with `token`.
    Trailing { token: Token },
}

/// The mathematical value of a [`Diagnostic`].
pub enum DiagnosticView {
    Expected { expected: TokenKind, found: Option<TokenView> },
    Unexpected { found: Option<TokenView> },
    Trailing { token: TokenView },
}

/// The mathematical value of a token that may be missing.
pub open spec fn optional_view(token: Option<Token>) -> Option<TokenView> {
    match token {
        Some(token) => Some(token@),
        None => None,
    }
}

impl View for Diagnostic {
    type V = DiagnosticView;

    open spec fn view(&self) -> DiagnosticView {
        match self {
            Diagnostic::Expected { expected, found } => DiagnosticView::Expected {
                expected: *expected,
                found: optional_view(*found),
            },
            Diagnostic::Unexpected { found } => DiagnosticView::Unexpected {
                found: optional_view(*found),
            },
            Diagnostic::Trailing { token } => DiagnosticView::Trailing { token: token@ },
        }
    }
}

impl DeepView for Diagnostic {
    type V = DiagnosticView;

    open spec fn deep_view(&self) -> DiagnosticView {
        self@
    }
}

/// What a rule of the grammar makes of a sequence of tokens: the tree that
/// it built, the tokens that it left, and what it found wrong, in the order
/// in which it found it.
pub struct Parsed {
    pub tree: Expression,
    pub rest: Seq<TokenView>,
    pub reports: Seq<DiagnosticView>,
}

/// Whether `tokens` starts with a token of the kind `kind`.
pub open spec fn starts_with(tokens: Seq<TokenView>, kind: TokenKind) -> bool {
    tokens.len() > 0 && tokens.first().kind() == kind
}

/// The first of `tokens`, if there is one.
pub open spec fn front(tokens: Seq<TokenView>) -> Option<TokenView> {
    if tokens.len() > 0 {
        Some(tokens.first())
    } else {
        None
    }
}

/// Whether `rest` is what is left of `tokens` when some of its first tokens
/// are taken away.
pub open spec fn is_rest_of(rest: Seq<TokenView>, tokens: Seq<TokenView>) -> bool {
    rest.len() <= tokens.len() && rest == tokens.skip(tokens.len() - rest.len())
}

/// The operator that `tokens` starts with, where that is `*` or `/`.
pub open spec fn factor_operator(tokens: Seq<TokenView>) -> Option<char> {
    if starts_with(tokens, TokenKind::Star) {
        Some('*')
    } else if starts_with(tokens, TokenKind::Slash) {
        Some('/')
    } else {
        None
    }
}

/// The operator that `tokens` starts with, where that is `+` or `-`.
pub open spec fn term_operator(tokens: Seq<TokenView>) -> Option<char> {
    if starts_with(tokens, TokenKind::Plus) {
        Some('+')
    } else if starts_with(tokens, TokenKind::Minus) {
        Some('-')
    } else {
        None
    }
}

/// `left operator right`, where `right` was parsed from what `left` and the
/// operator had left.
pub open spec fn joined(left: Parsed, operator: char, right: Parsed) -> Parsed {
    Parsed {
        tree: binary(operator, left.tree, right.tree),
        rest: right.rest,
        reports: left.reports + right.reports,
    }
}

/// The end of a parenthesised expression: the closing parenthesis is taken
/// where it stands next, and reported as missing where it does not.
pub open spec fn closed(inner: Parsed) -> Parsed {
    if starts_with(inner.rest, TokenKind::Rparen) {
        Parsed { tree: inner.tree, rest: inner.rest.drop_first(), reports: inner.reports }
    } else {
        Parsed {
            tree: inner.tree,
            rest: inner.rest,
            reports: inner.reports.push(
                DiagnosticView::Expected { expected: TokenKind::Rparen, found: front(inner.rest) },
            ),
        }
    }
}

/// `primary := INTEGER | '(' expression ')'`. Where `tokens` starts with
/// neither, nothing is taken, the tree is the number zero, and the token
/// that stands there is reported.
pub open spec fn primary_of(tokens: Seq<TokenView>) -> Parsed
    decreases tokens.len(), 0nat,
{
    if tokens.len() > 0 {
        match tokens.first() {
            TokenView::Integer(value) => Parsed {
                tree: literal(value),
                rest: tokens.drop_first(),
                reports: Seq::empty(),
            },
            TokenView::Lparen => closed(expression_of(tokens.drop_first())),
            _ => Parsed {
                tree: literal(0),
                rest: tokens,
                reports: seq![DiagnosticView::Unexpected { found: front(tokens) }],
            },
        }
    } else {
        Parsed {
            tree: literal(0),
            rest: tokens,
            reports: seq![DiagnosticView::Unexpected { found: None }],
        }
    }
}

/// `(('*' | '/') primary)*` behind the operand `left`: each operator that
/// follows takes all that was parsed before it as its left operand.
///
/// The test on the lengths makes the definition well-founded;
/// [`lemma_primary_of`] shows that it never fails.
pub open spec fn factor_from(left: Parsed) -> Parsed
    decreases left.rest.len(), 1nat,
{
    match factor_operator(left.rest) {
        Some(operator) => {
            let next = joined(left, operator, primary_of(left.rest.drop_first()));
            if next.rest.len() < left.rest.len() {
                factor_from(next)
            } else {
                next
            }
        },
        None => left,
    }
}

/// `factor := primary (('*' | '/') primary)*`.
pub open spec fn factor_of(tokens: Seq<TokenView>) -> Parsed
    decreases tokens.len(), 2nat,
{
    let first = primary_of(tokens);
    if first.rest.len() <= tokens.len() {
        factor_from(first)
    } else {
        first
    }
}

/// `(('+' | '-') factor)*` behind the operand `left`: each operator that
/// follows takes all that was parsed before it as its left operand.
///
/// The test on the lengths makes the definition well-founded;
/// [`lemma_factor_of`] shows that it never fails.
pub open spec fn term_from(left: Parsed) -> Parsed
    decreases left.rest.len(), 3nat,
{
    match term_operator(left.rest) {
        Some(operator) => {
            let next = joined(left, operator, factor_of(left.rest.drop_first()));
            if next.rest.len() < left.rest.len() {
                term_from(next)
            } else {
                next
            }
        },
        None => left,
    }
}

/// `term := factor (('+' | '-') factor)*`.
pub open spec fn term_of(tokens: Seq<TokenView>) -> Parsed
    decreases tokens.len(), 4nat,
{
    let first = factor_of(tokens);
    if first.rest.len() <= tokens.len() {
        term_from(first)
    } else {
        first
    }
}

/// `expression := term`.
pub open spec fn expression_of(tokens: Seq<TokenView>) -> Parsed
    decreases tokens.len(), 5nat,
{
    term_of(tokens)
}

/// A whole line: an expression, and nothing behind it. A token that is left
/// is reported.
pub open spec fn parse_of(tokens: Seq<TokenView>) -> Parsed {
    let whole = expression_of(tokens);
    if whole.rest.len() > 0 {
        Parsed {
            tree: whole.tree,
            rest: whole.rest,
            reports: whole.reports.push(DiagnosticView::Trailing { token: whole.rest.first() }),
        }
    } else {
        whole
    }
}

/// What is left of what is left of `tokens` is left of `tokens`.
proof fn lemma_rest_of_rest(last: Seq<TokenView>, middle: Seq<TokenView>, tokens: Seq<TokenView>)
    requires
        is_rest_of(last, middle),
        is_rest_of(middle, tokens),
    ensures
        is_rest_of(last, tokens),
{
    assert(last =~= tokens.skip(tokens.len() - last.len()));
}

/// Taking the first token away leaves a rest.
proof fn lemma_rest_of_drop_first(tokens: Seq<TokenView>)
    requires
        tokens.len() > 0,
    ensures
        is_rest_of(tokens.drop_first(), tokens),
        is_rest_of(tokens, tokens),
{
    assert(tokens =~= tokens.skip(0));
}

/// A primary takes tokens from the front only, and its tree is well formed.
pub proof fn lemma_primary_of(tokens: Seq<TokenView>)
    ensures
        is_rest_of(primary_of(tokens).rest, tokens),
        primary_of(tokens).tree.well_formed(),
    decreases tokens.len(), 0nat,
{
    assert(tokens =~= tokens.skip(0));
    if tokens.len() > 0 {
        lemma_rest_of_drop_first(tokens);
        if tokens.first() is Lparen {
            let inner = expression_of(tokens.drop_first());
            lemma_expression_of(tokens.drop_first());
            if starts_with(inner.rest, TokenKind::Rparen) {
                lemma_rest_of_drop_first(inner.rest);
                lemma_rest_of_rest(inner.rest.drop_first(), inner.rest, tokens.drop_first());
            }
            lemma_rest_of_rest(closed(inner).rest, tokens.drop_first(), tokens);
        }
    }
}

/// A chain of `*` and `/` takes tokens from the front only, adds to what was
/// found wrong, keeps the tree well formed, and goes on for as long as one of
/// the two operators follows.
pub proof fn lemma_factor_from(left: Parsed)
    ensures
        is_rest_of(factor_from(left).rest, left.rest),
        left.reports.len() <= factor_from(left).reports.len(),
        left.tree.well_formed() ==> factor_from(left).tree.well_formed(),
        factor_from(left) == match factor_operator(left.rest) {
            Some(operator) => factor_from(
                joined(left, operator, primary_of(left.rest.drop_first())),
            ),
            None => left,
        },
    decreases left.rest.len(), 1nat,
{
    match factor_operator(left.rest) {
        Some(operator) => {
            let next = joined(left, operator, primary_of(left.rest.drop_first()));
            lemma_primary_of(left.rest.drop_first());
            lemma_rest_of_drop_first(left.rest);
            lemma_rest_of_rest(next.rest, left.rest.drop_first(), left.rest);
            lemma_factor_from(next);
            lemma_rest_of_rest(factor_from(next).rest, next.rest, left.rest);
        },
        None => {
            assert(left.rest =~= left.rest.skip(0));
        },
    }
}

/// A factor takes tokens from the front only, its tree is well formed, and
/// it is a primary with the chain of `*` and `/` behind it.
pub proof fn lemma_factor_of(tokens: Seq<TokenView>)
    ensures
        is_rest_of(factor_of(tokens).rest, tokens),
        factor_of(tokens).tree.well_formed(),
        factor_of(tokens) == factor_from(primary_of(tokens)),
    decreases tokens.len(), 2nat,
{
    let first = primary_of(tokens);
    lemma_primary_of(tokens);
    lemma_factor_from(first);
    lemma_rest_of_rest(factor_from(first).rest, first.rest, tokens);
}

/// A chain of `+` and `-` takes tokens from the front only, adds to what was
/// found wrong, keeps the tree well formed, and goes on for as long as one of
/// the two operators follows.
pub proof fn lemma_term_from(left: Parsed)
    ensures
        is_rest_of(term_from(left).rest, left.rest),
        left.reports.len() <= term_from(left).reports.len(),
        left.tree.well_formed() ==> term_from(left).tree.well_formed(),
        term_from(left) == match term_operator(left.rest) {
            Some(operator) => term_from(joined(left, operator, factor_of(left.rest.drop_first()))),
            None => left,
        },
    decreases left.rest.len(), 3nat,
{
    match term_operator(left.rest) {
        Some(operator) => {
            let next = joined(left, operator, factor_of(left.rest.drop_first()));
            lemma_factor_of(left.rest.drop_first());
            lemma_rest_of_drop_first(left.rest);
            lemma_rest_of_rest(next.rest, left.rest.drop_first(), left.rest);
            lemma_term_from(next);
            lemma_rest_of_rest(term_from(next).rest, next.rest, left.rest);
        },
        None => {
            assert(left.rest =~= left.rest.skip(0));
        },
    }
}

/// A term takes tokens from the front only, its tree is well formed, and it
/// is a factor with the chain of `+` and `-` behind it.
pub proof fn lemma_term_of(tokens: Seq<TokenView>)
    ensures
        is_rest_of(term_of(tokens).rest, tokens),
        term_of(tokens).tree.well_formed(),
        term_of(tokens) == term_from(factor_of(tokens)),
    decreases tokens.len(), 4nat,
{
    let first = factor_of(tokens);
    lemma_factor_of(tokens);
    lemma_term_from(first);
    lemma_rest_of_rest(term_from(first).rest, first.rest, tokens);
}

/// An expression takes tokens from the front only, and its tree is well
/// formed.
pub proof fn lemma_expression_of(tokens: Seq<TokenView>)
    ensures
        is_rest_of(expression_of(tokens).rest, tokens),
        expression_of(tokens).tree.well_formed(),
    decreases tokens.len(), 5nat,
{
    lemma_term_of(tokens);
}

/// A recursive-descent parser over the tokens of one line. It goes through
/// them from the front, and what it finds wrong it records and goes on.
pub struct Parser {
    tokens: VecDeque<Token>,
    previous: Option<Token>,
    error: bool,
    diagnostics: Vec<Diagnostic>,
}

impl Parser {
    /// The tokens that are still to be parsed.
    pub closed spec fn remaining(&self) -> Seq<TokenView> {
        self.tokens.deep_view()
    }

    /// What was found wrong so far, in the order in which it was found.
    pub closed spec fn reports(&self) -> Seq<DiagnosticView> {
        self.diagnostics.deep_view()
    }

    /// Whether nothing was found wrong so far.
    pub closed spec fn spec_was_successful(&self) -> bool {
        !self.error
    }

    /// The token that was matched last.
    spec fn matched(&self) -> Option<TokenView> {
        optional_view(self.previous)
    }

    /// Whether a rule of the grammar with the outcome `outcome` leads from
    /// the parser `self` to the parser `after` and the tree `tree`.
    spec fn leads_to(&self, after: &Parser, tree: Expression, outcome: Parsed) -> bool {
        &&& tree == outcome.tree
        &&& after.remaining() == outcome.rest
        &&& after.reports() == self.reports() + outcome.reports
        &&& after.error == (self.error || outcome.reports.len() > 0)
    }

    /// A parser that has all of `tokens` before it.
    pub fn new(tokens: Vec<Token>) -> (parser: Parser)
        ensures
            parser.remaining() == tokens.deep_view(),
            parser.reports() == Seq::<DiagnosticView>::empty(),
            parser.was_successful(),
    {
        let mut stack = tokens;
        let mut queue: VecDeque<Token> = VecDeque::new();
        while stack.len() > 0
            invariant
                stack@ + queue@ == tokens@,
            decreases stack.len(),
        {
            let last = stack.pop().unwrap();
            queue.push_front(last);
        }
        let diagnostics: Vec<Diagnostic> = Vec::new();
        Parser { tokens: queue, previous: None, error: false, diagnostics }
    }

    /// Takes the next token if it is of the kind `kind`, and keeps it as the
    /// token that was matched last.
    fn matchp(&mut self, kind: TokenKind) -> (found: bool)
        ensures
            found == starts_with(old(self).remaining(), kind),
            found ==> final(self).remaining() == old(self).remaining().drop_first()
                && final(self).matched() == Some(old(self).remaining().first()),
            !found ==> final(self).remaining() == old(self).remaining() && final(self).matched()
                == old(self).matched(),
            final(self).reports() == old(self).reports(),
            final(self).error == old(self).error,
    {
        if self.tokens.len() > 0 && self.tokens[0].kind() == kind {
            self.previous = self.tokens.pop_front();
            true
        } else {
            false
        }
    }

    /// Takes the next token if it is of the kind `kind`, and reports it, or
    /// the end of the line, if it is not.
    fn consume(&mut self, kind: TokenKind)
        ensures
            final(self).matched() == old(self).matched(),
            starts_with(old(self).remaining(), kind) ==> {
                &&& final(self).remaining() == old(self).remaining().drop_first()
                &&& final(self).reports() == old(self).reports()
                &&& final(self).error == old(self).error
            },
            !starts_with(old(self).remaining(), kind) ==> {
                &&& final(self).remaining() == old(self).remaining()
                &&& final(self).reports() == old(self).reports().push(
                    DiagnosticView::Expected {
                        expected: kind,
                        found: front(old(self).remaining()),
                    },
                )
                &&& final(self).error
            },
    {
        if self.tokens.len() > 0 {
            if self.tokens[0].kind() == kind {
                self.tokens.pop_front();
            } else {
                let found = self.tokens[0].clone();
                self.report(Diagnostic::Expected { expected: kind, found: Some(found) });
            }
            return ;
        }
        self.report(Diagnostic::Expected { expected: kind, found: None });
    }

    /// Records what was found wrong, and that something was.
    fn report(&mut self, diagnostic: Diagnostic)
        ensures
            final(self).tokens == old(self).tokens,
            final(self).previous == old(self).previous,
            final(self).reports() == old(self).reports().push(diagnostic@),
            final(self).error,
    {
        self.error = true;
        self.diagnostics.push(diagnostic);
    }

    /// Parses a primary: a number, or an expression in parentheses. Where
    /// neither starts, the token that stands there is reported and left, and
    /// the number zero stands in for the operand.
    fn primary(&mut self) -> (tree: Expression)
        ensures
            old(self).leads_to(final(self), tree, primary_of(old(self).remaining())),
        decreases old(self).remaining().len(), 0nat,
    {
        if self.matchp(TokenKind::Integer) {
            let value = match &self.previous {
                Some(Token::Integer(value)) => *value,
                _ => unreached(),
            };
            return Expression::Literal(Literal { value });
        }
        if self.matchp(TokenKind::Lparen) {
            let tree = self.expression();
            self.consume(TokenKind::Rparen);
            tree
        } else {
            let found = if self.tokens.len() > 0 {
                Some(self.tokens[0].clone())
            } else {
                None
            };
            self.report(Diagnostic::Unexpected { found });
            assert(self.reports() =~= old(self).reports() + seq![
                DiagnosticView::Unexpected { found: front(old(self).remaining()) },
            ]);
            Expression::Literal(Literal { value: 0 })
        }
    }

    /// Parses a factor: primaries with `*` or `/` between them, each operator
    /// taking all that stands before it as its left operand.
    fn factor(&mut self) -> (tree: Expression)
        ensures
            old(self).leads_to(final(self), tree, factor_of(old(self).remaining())),
        decreases old(self).remaining().len(), 2nat,
    {
        let mut tree = self.primary();
        let ghost mut done = primary_of(old(self).remaining());
        proof {
            lemma_primary_of(old(self).remaining());
            lemma_factor_of(old(self).remaining());
        }
        loop
            invariant
                old(self).leads_to(self, tree, done),
                done.tree.well_formed(),
                done.rest.len() <= old(self).remaining().len(),
                factor_from(done) == factor_of(old(self).remaining()),
            ensures
                old(self).leads_to(self, tree, factor_of(old(self).remaining())),
            decreases self.remaining().len(),
        {
            proof {
                lemma_factor_from(done);
            }
            let operator = if self.matchp(TokenKind::Star) {
                '*'
            } else if self.matchp(TokenKind::Slash) {
                '/'
            } else {
                break ;
            };
            let ghost right = primary_of(done.rest.drop_first());
            proof {
                lemma_primary_of(done.rest.drop_first());
            }
            let operand = self.primary();
            proof {
                assert(self.reports() =~= old(self).reports() + (done.reports + right.reports));
                done = joined(done, operator, right);
            }
            tree = Expression::Binary(
                Binary { operator, left: Box::new(tree), right: Box::new(operand) },
            );
        }
        tree
    }

    /// Parses a term: factors with `+` or `-` between them, each operator
    /// taking all that stands before it as its left operand.
    fn term(&mut self) -> (tree: Expression)
        ensures
            old(self).leads_to(final(self), tree, term_of(old(self).remaining())),
        decreases old(self).remaining().len(), 4nat,
    {
        let mut tree = self.factor();
        let ghost mut done = factor_of(old(self).remaining());
        proof {
            lemma_factor_of(old(self).remaining());
            lemma_term_of(old(self).remaining());
        }
        loop
            invariant
                old(self).leads_to(self, tree, done),
                done.tree.well_formed(),
                done.rest.len() <= old(self).remaining().len(),
                term_from(done) == term_of(old(self).remaining()),
            ensures
                old(self).leads_to(self, tree, term_of(old(self).remaining())),
            decreases self.remaining().len(),
        {
            proof {
                lemma_term_from(done);
            }
            let operator = if self.matchp(TokenKind::Plus) {
                '+'
            } else if self.matchp(TokenKind::Minus) {
                '-'
            } else {
                break ;
            };
            let ghost right = factor_of(done.rest.drop_first());
            proof {
                lemma_factor_of(done.rest.drop_first());
            }
            let operand = self.factor();
            proof {
                assert(self.reports() =~= old(self).reports() + (done.reports + right.reports));
                done = joined(done, operator, right);
            }
            tree = Expression::Binary(
                Binary { operator, left: Box::new(tree), right: Box::new(operand) },
            );
        }
        tree
    }

    /// Parses an expression: a term.
    fn expression(&mut self) -> (tree: Expression)
        ensures
            old(self).leads_to(final(self), tree, expression_of(old(self).remaining())),
        decreases old(self).remaining().len(), 5nat,
    {
        self.term()
    }

    /// Parses the tokens that the parser has before it as one expression.
    /// What was found wrong before is forgotten. The parser goes through the
    /// whole expression whatever it finds, and a token that is left behind
    /// the expression is reported too. The tree is to be trusted only where
    /// nothing was found wrong.
    pub fn parse(&mut self) -> (tree: Expression)
        ensures
            tree == parse_of(old(self).remaining()).tree,
            tree.well_formed(),
            final(self).remaining() == parse_of(old(self).remaining()).rest,
            final(self).reports() == parse_of(old(self).remaining()).reports,
            final(self).was_successful() == (parse_of(old(self).remaining()).reports.len() == 0),
            final(self).was_successful() == is_expression(old(self).remaining()),
            final(self).was_successful() ==> spells_expression(old(self).remaining(), tree),
    {
        proof {
            lemma_accepted_are_the_expressions(old(self).remaining());
            if parse_of(old(self).remaining()).reports.len() == 0 {
                lemma_accepted_is_expression(old(self).remaining());
            }
        }
        self.error = false;
        self.diagnostics = Vec::new();
        proof {
            lemma_expression_of(old(self).remaining());
        }
        let tree = self.expression();
        if self.tokens.len() > 0 {
            let token = self.tokens[0].clone();
            self.report(Diagnostic::Trailing { token });
        }
        tree
    }

    /// Whether nothing was found wrong since the parser was made, or since
    /// it last started to parse.
    #[verifier::when_used_as_spec(spec_was_successful)]
    pub fn was_successful(&self) -> (successful: bool)
        ensures
            successful == self.spec_was_successful(),
    {
        !self.error
    }

    /// What was found wrong since the parser was made, or since it last
    /// started to parse, in the order in which it was found.
    pub fn diagnostics(&self) -> (diagnostics: &Vec<Diagnostic>)
        ensures
            diagnostics.deep_view() == self.reports(),
    {
        &self.diagnostics
    }

    /// Gives up the parser for what it found wrong.
    pub fn into_diagnostics(self) -> (diagnostics: Vec<Diagnostic>)
        ensures
            diagnostics.deep_view() == self.reports(),
    {
        self.diagnostics
    }
}

} // verus!
