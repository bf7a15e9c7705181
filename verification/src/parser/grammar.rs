use crate::lexer::TokenView;
use crate::parser::expression::{literal, Expression};
use crate::parser::{
    expression_of, factor_from, factor_of, factor_operator, is_rest_of, joined,
    lemma_expression_of, lemma_factor_from, lemma_factor_of, lemma_primary_of, lemma_term_from,
    lemma_term_of, parse_of, primary_of, term_from, term_of, term_operator, Parsed,
};
use vstd::prelude::*;

verus! {

/// Whether `tokens` spell `tree` as a primary: they are the one integer that
/// the tree holds, or a parenthesis, what spells the tree as an expression,
/// and the closing parenthesis.
///
/// `primary := INTEGER | '(' expression ')'`
pub open spec fn spells_primary(tokens: Seq<TokenView>, tree: Expression) -> bool
    decreases tokens.len(), 0nat,
{
    ||| tokens.len() == 1 && tokens.first() is Integer && tree == literal(tokens.first()->Integer_0)
    ||| {
        &&& tokens.len() >= 2
        &&& tokens.first() is Lparen
        &&& tokens.last() is Rparen
        &&& spells_expression(tokens.subrange(1, tokens.len() - 1), tree)
    }
}

/// Whether `at` is a place in `tokens` with at least one token before it.
pub open spec fn inside(tokens: Seq<TokenView>, at: int) -> bool {
    0 < at < tokens.len()
}

/// Whether `tokens` spell `tree` as a factor: as a primary, or with `*` or
/// `/` at some place, the left operand spelled as a factor before it and
/// the right operand spelled as a primary behind it.
///
/// `factor := primary | factor ('*' | '/') primary`
pub open spec fn spells_factor(tokens: Seq<TokenView>, tree: Expression) -> bool
    decreases tokens.len(), 1nat,
{
    ||| spells_primary(tokens, tree)
    ||| exists|at: int|
        {
            &&& #[trigger] inside(tokens, at)
            &&& tree is Binary
            &&& factor_operator(tokens.skip(at)) == Some(tree->Binary_0.operator)
            &&& spells_factor(tokens.take(at), *tree->Binary_0.left)
            &&& spells_primary(tokens.skip(at + 1), *tree->Binary_0.right)
        }
}

/// Whether `tokens` spell `tree` as a term: as a factor, or with `+` or `-`
/// at some place, the left operand spelled as a term before it and the
/// right operand spelled as a factor behind it.
///
/// `term := factor | term ('+' | '-') factor`
pub open spec fn spells_term(tokens: Seq<TokenView>, tree: Expression) -> bool
    decreases tokens.len(), 2nat,
{
    ||| spells_factor(tokens, tree)
    ||| exists|at: int|
        {
            &&& #[trigger] inside(tokens, at)
            &&& tree is Binary
            &&& term_operator(tokens.skip(at)) == Some(tree->Binary_0.operator)
            &&& spells_term(tokens.take(at), *tree->Binary_0.left)
            &&& spells_factor(tokens.skip(at + 1), *tree->Binary_0.right)
        }
}

/// Whether `tokens` spell `tree` as an expression.
///
/// `expression := term`
pub open spec fn spells_expression(tokens: Seq<TokenView>, tree: Expression) -> bool
    decreases tokens.len(), 3nat,
{
    spells_term(tokens, tree)
}

/// Whether `tokens` are an expression of the grammar.
pub open spec fn is_expression(tokens: Seq<TokenView>) -> bool {
    exists|tree: Expression| spells_expression(tokens, tree)
}

/// The outcome of a rule that built `tree`, left `rest`, and found nothing
/// wrong.
pub open spec fn clean(tree: Expression, rest: Seq<TokenView>) -> Parsed {
    Parsed { tree, rest, reports: Seq::empty() }
}

/// Tokens that spell a primary are parsed as that primary, whatever follows
/// them.
proof fn lemma_spelled_primary(tokens: Seq<TokenView>, tree: Expression, rest: Seq<TokenView>)
    requires
        spells_primary(tokens, tree),
    ensures
        primary_of(tokens + rest) == clean(tree, rest),
    decreases tokens.len(), 0nat,
{
    let all = tokens + rest;
    if tokens.len() == 1 && tokens.first() is Integer {
        assert(all.drop_first() =~= rest);
    } else {
        let inner = tokens.subrange(1, tokens.len() - 1);
        let behind = seq![tokens.last()] + rest;
        assert(all.drop_first() =~= inner + behind);
        lemma_spelled_term(inner, tree, behind);
        lemma_term_from(clean(tree, behind));
        assert(behind.drop_first() =~= rest);
    }
}

/// Tokens that spell a factor are parsed as the start of a factor: the
/// parser comes to what follows them with their tree, and goes on from there.
proof fn lemma_spelled_factor(tokens: Seq<TokenView>, tree: Expression, rest: Seq<TokenView>)
    requires
        spells_factor(tokens, tree),
    ensures
        factor_of(tokens + rest) == factor_from(clean(tree, rest)),
    decreases tokens.len(), 1nat,
{
    lemma_factor_of(tokens + rest);
    if spells_primary(tokens, tree) {
        lemma_spelled_primary(tokens, tree, rest);
    } else {
        let at = choose|at: int|
            {
                &&& #[trigger] inside(tokens, at)
                &&& tree is Binary
                &&& factor_operator(tokens.skip(at)) == Some(tree->Binary_0.operator)
                &&& spells_factor(tokens.take(at), *tree->Binary_0.left)
                &&& spells_primary(tokens.skip(at + 1), *tree->Binary_0.right)
            };
        let operation = tree->Binary_0;
        let behind = tokens.skip(at) + rest;
        assert(tokens + rest =~= tokens.take(at) + behind);
        lemma_spelled_factor(tokens.take(at), *operation.left, behind);
        lemma_factor_from(clean(*operation.left, behind));
        assert(behind.drop_first() =~= tokens.skip(at + 1) + rest);
        lemma_spelled_primary(tokens.skip(at + 1), *operation.right, rest);
    }
}

/// Tokens that spell a term are parsed as the start of a term, where no `*`
/// or `/` follows them: the parser comes to what follows them with their
/// tree, and goes on from there.
proof fn lemma_spelled_term(tokens: Seq<TokenView>, tree: Expression, rest: Seq<TokenView>)
    requires
        spells_term(tokens, tree),
        factor_operator(rest) is None,
    ensures
        term_of(tokens + rest) == term_from(clean(tree, rest)),
    decreases tokens.len(), 2nat,
{
    lemma_term_of(tokens + rest);
    if spells_factor(tokens, tree) {
        lemma_spelled_factor(tokens, tree, rest);
        lemma_factor_from(clean(tree, rest));
    } else {
        let at = choose|at: int|
            {
                &&& #[trigger] inside(tokens, at)
                &&& tree is Binary
                &&& term_operator(tokens.skip(at)) == Some(tree->Binary_0.operator)
                &&& spells_term(tokens.take(at), *tree->Binary_0.left)
                &&& spells_factor(tokens.skip(at + 1), *tree->Binary_0.right)
            };
        let operation = tree->Binary_0;
        let behind = tokens.skip(at) + rest;
        assert(tokens + rest =~= tokens.take(at) + behind);
        lemma_spelled_term(tokens.take(at), *operation.left, behind);
        lemma_term_from(clean(*operation.left, behind));
        assert(behind.drop_first() =~= tokens.skip(at + 1) + rest);
        lemma_spelled_factor(tokens.skip(at + 1), *operation.right, rest);
        lemma_factor_from(clean(*operation.right, rest));
    }
}

/// Whatever spells a tree as an expression is parsed to that tree, with
/// nothing left and nothing found wrong.
pub proof fn lemma_expression_is_accepted(tokens: Seq<TokenView>, tree: Expression)
    requires
        spells_expression(tokens, tree),
    ensures
        parse_of(tokens) == clean(tree, Seq::empty()),
{
    let nothing = Seq::<TokenView>::empty();
    lemma_spelled_term(tokens, tree, nothing);
    lemma_term_from(clean(tree, nothing));
}

/// The tokens that a rule took from `tokens` when it left `rest`.
pub open spec fn taken(tokens: Seq<TokenView>, rest: Seq<TokenView>) -> Seq<TokenView> {
    tokens.take(tokens.len() - rest.len())
}

/// No tree is spelled by no tokens.
proof fn lemma_spelled_is_not_empty(tokens: Seq<TokenView>, tree: Expression)
    requires
        spells_term(tokens, tree),
    ensures
        tokens.len() > 0,
{
    reveal_with_fuel(spells_term, 3);
}

/// Where a primary is parsed and nothing is found wrong, the tokens that
/// were taken spell the tree as a primary.
proof fn lemma_clean_primary(tokens: Seq<TokenView>)
    requires
        primary_of(tokens).reports.len() == 0,
    ensures
        spells_primary(taken(tokens, primary_of(tokens).rest), primary_of(tokens).tree),
    decreases tokens.len(), 0nat,
{
    lemma_primary_of(tokens);
    if tokens.len() > 0 && tokens.first() is Lparen {
        let behind = tokens.drop_first();
        let inner = expression_of(behind);
        lemma_expression_of(behind);
        lemma_clean_term(behind);
        let all = taken(tokens, inner.rest.drop_first());
        assert(all.subrange(1, all.len() - 1) =~= taken(behind, inner.rest));
    }
}

/// Where a chain of `*` and `/` is parsed behind tokens that spell its left
/// operand as a factor, and nothing is found wrong, all the tokens that were
/// taken spell the tree as a factor.
proof fn lemma_clean_factor_from(tokens: Seq<TokenView>, left: Parsed)
    requires
        is_rest_of(left.rest, tokens),
        spells_factor(taken(tokens, left.rest), left.tree),
        factor_from(left).reports.len() == 0,
    ensures
        spells_factor(taken(tokens, factor_from(left).rest), factor_from(left).tree),
    decreases left.rest.len(), 1nat,
{
    lemma_factor_from(left);
    if factor_operator(left.rest) is Some {
        let behind = left.rest.drop_first();
        let right = primary_of(behind);
        let next = joined(left, factor_operator(left.rest)->0, right);
        lemma_factor_from(next);
        lemma_primary_of(behind);
        lemma_clean_primary(behind);
        lemma_spelled_is_not_empty(taken(tokens, left.rest), left.tree);
        let all = taken(tokens, next.rest);
        let at = tokens.len() - left.rest.len();
        assert(inside(all, at));
        assert(all.take(at) =~= taken(tokens, left.rest));
        assert(all.skip(at + 1) =~= taken(behind, right.rest));
        assert(is_rest_of(next.rest, tokens)) by {
            assert(next.rest =~= tokens.skip(tokens.len() - next.rest.len()));
        }
        lemma_clean_factor_from(tokens, next);
    }
}

/// Where a factor is parsed and nothing is found wrong, the tokens that were
/// taken spell the tree as a factor.
proof fn lemma_clean_factor(tokens: Seq<TokenView>)
    requires
        factor_of(tokens).reports.len() == 0,
    ensures
        spells_factor(taken(tokens, factor_of(tokens).rest), factor_of(tokens).tree),
    decreases tokens.len(), 2nat,
{
    lemma_factor_of(tokens);
    lemma_primary_of(tokens);
    lemma_factor_from(primary_of(tokens));
    lemma_clean_primary(tokens);
    lemma_clean_factor_from(tokens, primary_of(tokens));
}

/// Where a chain of `+` and `-` is parsed behind tokens that spell its left
/// operand as a term, and nothing is found wrong, all the tokens that were
/// taken spell the tree as a term.
proof fn lemma_clean_term_from(tokens: Seq<TokenView>, left: Parsed)
    requires
        is_rest_of(left.rest, tokens),
        spells_term(taken(tokens, left.rest), left.tree),
        term_from(left).reports.len() == 0,
    ensures
        spells_term(taken(tokens, term_from(left).rest), term_from(left).tree),
    decreases left.rest.len(), 3nat,
{
    lemma_term_from(left);
    if term_operator(left.rest) is Some {
        let behind = left.rest.drop_first();
        let right = factor_of(behind);
        let next = joined(left, term_operator(left.rest)->0, right);
        lemma_term_from(next);
        lemma_factor_of(behind);
        lemma_clean_factor(behind);
        lemma_spelled_is_not_empty(taken(tokens, left.rest), left.tree);
        let all = taken(tokens, next.rest);
        let at = tokens.len() - left.rest.len();
        assert(inside(all, at));
        assert(all.take(at) =~= taken(tokens, left.rest));
        assert(all.skip(at + 1) =~= taken(behind, right.rest));
        assert(is_rest_of(next.rest, tokens)) by {
            assert(next.rest =~= tokens.skip(tokens.len() - next.rest.len()));
        }
        lemma_clean_term_from(tokens, next);
    }
}

/// Where a term is parsed and nothing is found wrong, the tokens that were
/// taken spell the tree as a term.
proof fn lemma_clean_term(tokens: Seq<TokenView>)
    requires
        term_of(tokens).reports.len() == 0,
    ensures
        spells_term(taken(tokens, term_of(tokens).rest), term_of(tokens).tree),
    decreases tokens.len(), 4nat,
{
    lemma_term_of(tokens);
    lemma_factor_of(tokens);
    lemma_term_from(factor_of(tokens));
    lemma_clean_factor(tokens);
    lemma_clean_term_from(tokens, factor_of(tokens));
}

/// Where nothing is found wrong with the tokens, they spell the tree that
/// they are parsed to as an expression.
pub proof fn lemma_accepted_is_expression(tokens: Seq<TokenView>)
    requires
        parse_of(tokens).reports.len() == 0,
    ensures
        spells_expression(tokens, parse_of(tokens).tree),
{
    lemma_clean_term(tokens);
    assert(taken(tokens, Seq::<TokenView>::empty()) =~= tokens);
}

/// The parser finds nothing wrong with the expressions of the grammar, and
/// with nothing else.
pub proof fn lemma_accepted_are_the_expressions(tokens: Seq<TokenView>)
    ensures
        parse_of(tokens).reports.len() == 0 <==> is_expression(tokens),
{
    if parse_of(tokens).reports.len() == 0 {
        lemma_accepted_is_expression(tokens);
    }
    if is_expression(tokens) {
        let tree = choose|tree: Expression| spells_expression(tokens, tree);
        lemma_expression_is_accepted(tokens, tree);
    }
}

/// The grammar is unambiguous: no tokens spell two trees.
pub proof fn lemma_expression_has_one_tree(
    tokens: Seq<TokenView>,
    first: Expression,
    second: Expression,
)
    requires
        spells_expression(tokens, first),
        spells_expression(tokens, second),
    ensures
        first == second,
{
    lemma_expression_is_accepted(tokens, first);
    lemma_expression_is_accepted(tokens, second);
}

} // verus!
