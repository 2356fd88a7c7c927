//! The shape of a parsed expression, stated without reference to the way in
//! which the parser builds it.

use crate::ast::{operator_of, ExpressionView};
use crate::error::ParserErrorView;
use crate::grammar::{
    climb, continues, expression, infix, lemma_climb_unfolds, lemma_expression_unfolds, prefix,
    primary, remaining, token_at, Parsed,
};
use crate::precedence::{is_infix, precedence_of, Precedence};
use crate::token::TokenView;
use vstd::prelude::*;

verus! {

/// The tokens that spell an expression, in source order.
pub open spec fn spelling(e: ExpressionView) -> Seq<TokenView>
    decreases e,
{
    match e {
        ExpressionView::Ident(name) => seq![TokenView::Ident(name)],
        ExpressionView::IntegerLiteral(value) => seq![TokenView::Int(value)],
        ExpressionView::Prefix { token, right, .. } => seq![token] + spelling(*right),
        ExpressionView::Infix { token, left, right, .. } => spelling(*left) + seq![token]
            + spelling(*right),
    }
}

/// Whether an expression is one of the grammar: a prefix operator is `!`
/// or `-`, an infix operator is one of the eight that bind, and every
/// operator is the one that its token stands for.
pub open spec fn is_grammatical(e: ExpressionView) -> bool
    decreases e,
{
    match e {
        ExpressionView::Ident(_) => true,
        ExpressionView::IntegerLiteral(_) => true,
        ExpressionView::Prefix { token, operator, right } => {
            &&& token is Bang || token is Minus
            &&& operator_of(token) == Some(operator)
            &&& is_grammatical(*right)
        },
        ExpressionView::Infix { token, left, operator, right } => {
            &&& is_infix(token)
            &&& operator_of(token) == Some(operator)
            &&& is_grammatical(*left)
            &&& is_grammatical(*right)
        },
    }
}

/// How strongly the outermost operator of an expression binds: the rank of
/// an infix operator's precedence, and more than any rank for a term (an
/// identifier, a literal or a prefix application).
pub open spec fn strength(e: ExpressionView) -> int {
    match e {
        ExpressionView::Infix { token, .. } => precedence_of(token).rank(),
        _ => Precedence::Call.rank() + 1,
    }
}

/// Whether the shape of an expression follows the binding strengths of its
/// operators: the operand of a prefix operator is a term; the right operand
/// of an infix operator binds strictly stronger than the operator, and its
/// left operand binds at least as strongly.
pub open spec fn follows_precedence(e: ExpressionView) -> bool
    decreases e,
{
    match e {
        ExpressionView::Ident(_) => true,
        ExpressionView::IntegerLiteral(_) => true,
        ExpressionView::Prefix { right, .. } => strength(*right) > Precedence::Prefix.rank()
            && follows_precedence(*right),
        ExpressionView::Infix { token, left, right, .. } => {
            &&& strength(*left) >= precedence_of(token).rank()
            &&& strength(*right) > precedence_of(token).rank()
            &&& follows_precedence(*left)
            &&& follows_precedence(*right)
        },
    }
}

/// Whether `e` is an expression of the grammar that the tokens from `from`
/// to `at` spell, whose shape follows the binding strengths, which binds
/// stronger than `min`, and after which no operator comes that binds
/// stronger than `min`.
pub open spec fn is_climbed(
    tokens: Seq<TokenView>,
    from: int,
    at: int,
    e: ExpressionView,
    min: Precedence,
) -> bool {
    &&& 0 <= from <= at < tokens.len()
    &&& spelling(e) == tokens.subrange(from, at + 1)
    &&& is_grammatical(e)
    &&& follows_precedence(e)
    &&& strength(e) > min.rank()
    &&& !continues(tokens, at, min)
}

/// An expression is spelled by at least one token.
pub proof fn lemma_spelling_is_not_empty(e: ExpressionView)
    ensures
        spelling(e).len() >= 1,
    decreases e,
{
    match e {
        ExpressionView::Prefix { right, .. } => {
            lemma_spelling_is_not_empty(*right);
        },
        ExpressionView::Infix { left, right, .. } => {
            lemma_spelling_is_not_empty(*left);
            lemma_spelling_is_not_empty(*right);
        },
        _ => {},
    }
}

/// Precedence climbing groups operators of equal strength to the left and
/// stronger operators first, applies a prefix operator to the term right
/// after it, keeps every token in its place, and takes in every operator
/// that binds stronger than `min`.
pub proof fn law_expression_follows_precedence(tokens: Seq<TokenView>, i: int, min: Precedence)
    requires
        0 <= i,
    ensures
        expression(tokens, i, min).result matches Ok(e) ==> is_climbed(
            tokens,
            i,
            expression(tokens, i, min).at,
            e,
            min,
        ),
        primary(tokens, i).result matches Ok(e) ==> is_climbed(
            tokens,
            i,
            primary(tokens, i).at,
            e,
            Precedence::Prefix,
        ) && strength(e) > Precedence::Call.rank(),
    decreases remaining(tokens, i), 2int,
{
    let token = token_at(tokens, i);
    if token is Bang || token is Minus {
        law_expression_follows_precedence(tokens, i + 1, Precedence::Prefix);
        let operand = expression(tokens, i + 1, Precedence::Prefix);
        if operand.result is Ok {
            assert(tokens.subrange(i, operand.at + 1) =~= seq![token] + tokens.subrange(
                i + 1,
                operand.at + 1,
            ));
        }
    } else if token is Ident || token is Int {
        assert(tokens.subrange(i, i + 1) =~= seq![token]);
    }
    let first = primary(tokens, i);
    if first.result is Ok && first.at >= i {
        lemma_climb_follows_precedence(tokens, i, first.at, first.result->Ok_0, min);
    }
}

/// Extending an expression to the right keeps what
/// [`law_expression_follows_precedence`] states, provided that the operator
/// that comes next binds no stronger than the expression built so far.
pub proof fn lemma_climb_follows_precedence(
    tokens: Seq<TokenView>,
    from: int,
    i: int,
    left: ExpressionView,
    min: Precedence,
)
    requires
        0 <= from <= i < tokens.len(),
        spelling(left) == tokens.subrange(from, i + 1),
        is_grammatical(left),
        follows_precedence(left),
        strength(left) > min.rank(),
        precedence_of(token_at(tokens, i + 1)).rank() <= strength(left),
    ensures
        climb(tokens, i, left, min).result matches Ok(e) ==> is_climbed(
            tokens,
            from,
            climb(tokens, i, left, min).at,
            e,
            min,
        ),
    decreases remaining(tokens, i), 1int,
{
    if continues(tokens, i, min) {
        let token = token_at(tokens, i + 1);
        law_expression_follows_precedence(tokens, i + 2, precedence_of(token));
        let step = infix(tokens, i + 1, left);
        if step.result is Ok && step.at > i {
            let joined = step.result->Ok_0;
            assert(tokens.subrange(from, step.at + 1) =~= tokens.subrange(from, i + 1) + seq![
                token,
            ] + tokens.subrange(i + 2, step.at + 1));
            assert(spelling(joined) == tokens.subrange(from, step.at + 1));
            assert(strength(joined) == precedence_of(token).rank());
            lemma_climb_follows_precedence(tokens, from, step.at, joined, min);
        }
    }
}

/// Where the tokens from `from` on spell an expression of the grammar whose
/// shape follows the binding strengths, and the token after them binds no
/// stronger than the expression, parsing from `from` on builds that
/// expression, and goes on from its last token.
pub proof fn lemma_parse_reaches(
    tokens: Seq<TokenView>,
    from: int,
    e: ExpressionView,
    min: Precedence,
)
    requires
        0 <= from,
        from + spelling(e).len() <= tokens.len(),
        spelling(e) == tokens.subrange(from, from + spelling(e).len()),
        is_grammatical(e),
        follows_precedence(e),
        strength(e) > min.rank(),
        precedence_of(token_at(tokens, from + spelling(e).len())).rank() <= strength(e),
    ensures
        expression(tokens, from, min) == climb(tokens, from + spelling(e).len() - 1, e, min),
        !(e is Infix) ==> primary(tokens, from) == (Parsed {
            result: Ok(e),
            at: from + spelling(e).len() - 1,
        }),
    decreases e,
{
    let end = from + spelling(e).len() - 1;
    lemma_spelling_is_not_empty(e);
    lemma_expression_unfolds(tokens, from, min);
    match e {
        ExpressionView::Ident(name) => {
            assert(spelling(e)[0] == tokens[from]);
        },
        ExpressionView::IntegerLiteral(value) => {
            assert(spelling(e)[0] == tokens[from]);
        },
        ExpressionView::Prefix { token, operator, right } => {
            let operand = *right;
            lemma_spelling_is_not_empty(operand);
            assert(spelling(e)[0] == tokens[from]);
            assert(spelling(operand) =~= tokens.subrange(from + 1, end + 1)) by {
                assert(spelling(operand) =~= spelling(e).subrange(1, spelling(e).len() as int));
            }
            lemma_parse_reaches(tokens, from + 1, operand, Precedence::Prefix);
            assert(expression(tokens, from + 1, Precedence::Prefix) == (Parsed {
                result: Ok::<ExpressionView, ParserErrorView>(operand),
                at: end,
            }));
            assert(prefix(tokens, from).result == Ok::<ExpressionView, ParserErrorView>(e));
        },
        ExpressionView::Infix { token, left, operator, right } => {
            let l = *left;
            let r = *right;
            lemma_spelling_is_not_empty(l);
            lemma_spelling_is_not_empty(r);
            let k = from + spelling(l).len();
            assert(spelling(l) =~= tokens.subrange(from, k)) by {
                assert(spelling(l) =~= spelling(e).subrange(0, spelling(l).len() as int));
            }
            assert(tokens[k] == token) by {
                assert(spelling(e)[spelling(l).len() as int] == token);
            }
            assert(spelling(r) =~= tokens.subrange(k + 1, end + 1)) by {
                assert(spelling(r) =~= spelling(e).subrange(
                    spelling(l).len() as int + 1,
                    spelling(e).len() as int,
                ));
            }
            lemma_parse_reaches(tokens, from, l, min);
            lemma_parse_reaches(tokens, k + 1, r, precedence_of(token));
            lemma_climb_unfolds(tokens, k - 1, l, min);
            assert(continues(tokens, k - 1, min));
            assert(!continues(tokens, end, precedence_of(token)));
            assert(expression(tokens, k + 1, precedence_of(token)) == (Parsed {
                result: Ok::<ExpressionView, ParserErrorView>(r),
                at: end,
            }));
            assert(infix(tokens, k, l) == (Parsed {
                result: Ok::<ExpressionView, ParserErrorView>(e),
                at: end,
            }));
        },
    }
}

/// The parser finds the climbed expression: where `e` is climbed from
/// `from` to `at`, parsing from `from` on gives `e` and ends at `at`.
/// With [`law_expression_follows_precedence`], an expression is what the
/// parser gives exactly if it is climbed.
pub proof fn law_climbed_expression_is_parsed(
    tokens: Seq<TokenView>,
    from: int,
    at: int,
    e: ExpressionView,
    min: Precedence,
)
    requires
        is_climbed(tokens, from, at, e, min),
    ensures
        expression(tokens, from, min) == (Parsed { result: Ok(e), at }),
{
    assert(spelling(e).len() == at + 1 - from);
    lemma_parse_reaches(tokens, from, e, min);
}

/// The tokens and the weakest precedence admitted leave no choice: two
/// expressions that are climbed over the same tokens are the same.
pub proof fn law_climbed_expression_is_unique(
    tokens: Seq<TokenView>,
    from: int,
    at: int,
    a: ExpressionView,
    b: ExpressionView,
    min: Precedence,
)
    requires
        is_climbed(tokens, from, at, a, min),
        is_climbed(tokens, from, at, b, min),
    ensures
        a == b,
{
    law_climbed_expression_is_parsed(tokens, from, at, a, min);
    law_climbed_expression_is_parsed(tokens, from, at, b, min);
}

/// Whether a token is an identifier or an integer literal.
pub open spec fn is_atom(token: TokenView) -> bool {
    token is Ident || token is Int
}

/// The expression that an identifier or an integer literal is by itself.
pub open spec fn atom_of(token: TokenView) -> ExpressionView {
    match token {
        TokenView::Int(value) => ExpressionView::IntegerLiteral(value),
        TokenView::Ident(name) => ExpressionView::Ident(name),
        other => ExpressionView::Ident(other.text()),
    }
}

/// Each of the eight tokens that bind as infix operators stands for an
/// operator.
pub proof fn lemma_infix_is_operator(token: TokenView)
    requires
        is_infix(token),
    ensures
        operator_of(token) is Some,
{
}

/// An identifier or a literal by itself is an expression of the grammar, a
/// term, spelled by its one token.
pub proof fn lemma_atom(token: TokenView)
    requires
        is_atom(token),
    ensures
        spelling(atom_of(token)) == seq![token],
        is_grammatical(atom_of(token)),
        follows_precedence(atom_of(token)),
        strength(atom_of(token)) > Precedence::Call.rank(),
{
}

/// The application of the infix operator `token` to two expressions.
pub open spec fn join(token: TokenView, left: ExpressionView, right: ExpressionView)
    -> ExpressionView {
    ExpressionView::Infix {
        token,
        left: Box::new(left),
        operator: operator_of(token)->Some_0,
        right: Box::new(right),
    }
}

/// The operand of number `k` in a chain of operands and operators that
/// starts at token `from`: the operands stand at every second token.
pub open spec fn operand_at(tokens: Seq<TokenView>, from: int, k: int) -> TokenView {
    tokens[from + 2 * k]
}

/// The operator before the operand of number `k` in such a chain.
pub open spec fn operator_at(tokens: Seq<TokenView>, from: int, k: int) -> TokenView {
    tokens[from + 2 * k - 1]
}

/// The chain of the first `n` operators from token `from` on, nested to the
/// left: each operator applies to all that stands before it and to the one
/// operand after it.
pub open spec fn left_nest(tokens: Seq<TokenView>, from: int, n: nat) -> ExpressionView
    decreases n,
{
    if n == 0 {
        atom_of(operand_at(tokens, from, 0))
    } else {
        join(
            operator_at(tokens, from, n as int),
            left_nest(tokens, from, (n - 1) as nat),
            atom_of(operand_at(tokens, from, n as int)),
        )
    }
}

/// Whether the tokens from `from` on are a chain of `n` infix operators of
/// the one precedence `level` between identifiers and integer literals.
pub open spec fn is_chain(tokens: Seq<TokenView>, from: int, n: nat, level: Precedence) -> bool {
    &&& 0 <= from
    &&& from + 2 * n < tokens.len()
    &&& level != Precedence::Lowest
    &&& forall|k: int| 0 <= k <= n ==> is_atom(#[trigger] operand_at(tokens, from, k))
    &&& forall|k: int|
        1 <= k <= n ==> precedence_of(#[trigger] operator_at(tokens, from, k)) == level
}

/// A left-nested chain is spelled by its tokens, is of the grammar, and
/// follows the binding strengths.
pub proof fn lemma_left_nest(tokens: Seq<TokenView>, from: int, n: nat, level: Precedence)
    requires
        is_chain(tokens, from, n, level),
    ensures
        spelling(left_nest(tokens, from, n)) == tokens.subrange(from, from + 2 * n + 1),
        is_grammatical(left_nest(tokens, from, n)),
        follows_precedence(left_nest(tokens, from, n)),
        strength(left_nest(tokens, from, n)) >= level.rank(),
        n > 0 ==> strength(left_nest(tokens, from, n)) == level.rank(),
    decreases n,
{
    let first = operand_at(tokens, from, 0);
    assert(is_atom(first));
    if n == 0 {
        assert(spelling(left_nest(tokens, from, n)) =~= tokens.subrange(from, from + 1));
    } else {
        let before = (n - 1) as nat;
        assert(is_chain(tokens, from, before, level)) by {
            assert forall|k: int| 0 <= k <= before implies is_atom(
                #[trigger] operand_at(tokens, from, k),
            ) by {}
            assert forall|k: int| 1 <= k <= before implies precedence_of(
                #[trigger] operator_at(tokens, from, k),
            ) == level by {}
        }
        lemma_left_nest(tokens, from, before, level);
        let operator = operator_at(tokens, from, n as int);
        let operand = operand_at(tokens, from, n as int);
        assert(precedence_of(operator) == level);
        assert(is_atom(operand));
        let left = left_nest(tokens, from, before);
        lemma_infix_is_operator(operator);
        lemma_atom(operand);
        assert(spelling(left_nest(tokens, from, n)) == spelling(left) + seq![operator]
            + spelling(atom_of(operand)));
        assert(tokens.subrange(from, from + 2 * n + 1) =~= tokens.subrange(
            from,
            from + 2 * before + 1,
        ) + seq![operator] + seq![operand]);
    }
}

/// Operators of equal strength group to the left: a chain of operators of
/// one precedence that binds stronger than `min`, after which no such
/// operator follows, parses into the left-nested chain, whose every right
/// operand is a single identifier or literal.
pub proof fn law_equal_operators_nest_to_the_left(
    tokens: Seq<TokenView>,
    from: int,
    n: nat,
    level: Precedence,
    min: Precedence,
)
    requires
        is_chain(tokens, from, n, level),
        min.rank() < level.rank(),
        !continues(tokens, from + 2 * n, min),
    ensures
        expression(tokens, from, min) == (Parsed {
            result: Ok(left_nest(tokens, from, n)),
            at: from + 2 * n,
        }),
{
    lemma_left_nest(tokens, from, n, level);
    law_climbed_expression_is_parsed(
        tokens,
        from,
        from + 2 * n,
        left_nest(tokens, from, n),
        min,
    );
}

/// Of two operators in a row the stronger groups first: where the first
/// binds at least as strongly as the second, it takes the two operands
/// around it, and the second applies to the result; where the second binds
/// stronger, it takes its two operands first.
pub proof fn law_stronger_operator_groups_first(
    tokens: Seq<TokenView>,
    from: int,
    min: Precedence,
)
    requires
        0 <= from,
        from + 4 < tokens.len(),
        is_atom(tokens[from]),
        is_atom(tokens[from + 2]),
        is_atom(tokens[from + 4]),
        min.rank() < precedence_of(tokens[from + 1]).rank(),
        min.rank() < precedence_of(tokens[from + 3]).rank(),
        !continues(tokens, from + 4, min),
    ensures
        expression(tokens, from, min) == (Parsed {
            result: Ok(
                if precedence_of(tokens[from + 1]).rank() >= precedence_of(
                    tokens[from + 3],
                ).rank() {
                    join(
                        tokens[from + 3],
                        join(tokens[from + 1], atom_of(tokens[from]), atom_of(tokens[from + 2])),
                        atom_of(tokens[from + 4]),
                    )
                } else {
                    join(
                        tokens[from + 1],
                        atom_of(tokens[from]),
                        join(
                            tokens[from + 3],
                            atom_of(tokens[from + 2]),
                            atom_of(tokens[from + 4]),
                        ),
                    )
                },
            ),
            at: from + 4,
        }),
{
    let x = atom_of(tokens[from]);
    let y = atom_of(tokens[from + 2]);
    let z = atom_of(tokens[from + 4]);
    let first = tokens[from + 1];
    let second = tokens[from + 3];
    lemma_atom(tokens[from]);
    lemma_atom(tokens[from + 2]);
    lemma_atom(tokens[from + 4]);
    lemma_infix_is_operator(first);
    lemma_infix_is_operator(second);
    let whole = tokens.subrange(from, from + 5);
    assert(whole =~= seq![tokens[from], first, tokens[from + 2], second, tokens[from + 4]]);
    if precedence_of(first).rank() >= precedence_of(second).rank() {
        let inner = join(first, x, y);
        let e = join(second, inner, z);
        assert(spelling(inner) =~= seq![tokens[from], first, tokens[from + 2]]);
        assert(spelling(e) =~= whole);
        assert(is_grammatical(inner));
        assert(follows_precedence(inner));
        law_climbed_expression_is_parsed(tokens, from, from + 4, e, min);
    } else {
        let inner = join(second, y, z);
        let e = join(first, x, inner);
        assert(spelling(inner) =~= seq![tokens[from + 2], second, tokens[from + 4]]);
        assert(spelling(e) =~= whole);
        assert(is_grammatical(inner));
        assert(follows_precedence(inner));
        law_climbed_expression_is_parsed(tokens, from, from + 4, e, min);
    }
}

} // verus!
