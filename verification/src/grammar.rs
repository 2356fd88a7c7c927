//! What the parser makes of a stream of tokens, as functions of the stream
//! and of the index of the current token.

use crate::ast::{operator_of, ExpressionView, Operator, StatementView};
use crate::error::ParserErrorView;
use crate::precedence::{precedence_of, Precedence};
use crate::token::TokenView;
use vstd::prelude::*;

verus! {

/// The token at index `k` of a stream. Past its end, and before its start,
/// every token is the end marker.
pub open spec fn token_at(tokens: Seq<TokenView>, k: int) -> TokenView {
    if 0 <= k < tokens.len() {
        tokens[k]
    } else {
        TokenView::EOF
    }
}

/// How far index `k` lies before the end of the stream: 0 at the end and
/// past it. The measure by which the recursive definitions below end.
pub open spec fn remaining(tokens: Seq<TokenView>, k: int) -> nat {
    if k < tokens.len() {
        (tokens.len() - k) as nat
    } else {
        0
    }
}

/// The outcome of one parsing step: what it produced, and the index of the
/// current token when it ended.
pub struct Parsed<T> {
    pub result: Result<T, ParserErrorView>,
    pub at: int,
}

/// The operator that a token stands for, or the failure to find one.
pub open spec fn operator_for(token: TokenView) -> Result<Operator, ParserErrorView> {
    match operator_of(token) {
        Some(operator) => Ok(operator),
        None => Err(ParserErrorView::UnableToParseOperator(token.text())),
    }
}

/// The identifier expression that the token at `i` names.
pub open spec fn identifier_at(tokens: Seq<TokenView>, i: int) -> Result<
    ExpressionView,
    ParserErrorView,
> {
    match token_at(tokens, i) {
        TokenView::Ident(name) => Ok(ExpressionView::Ident(name)),
        other => Err(ParserErrorView::ExpectToken { expected: "Ident"@, found: other.text() }),
    }
}

/// The integer literal that the token at `i` holds.
pub open spec fn integer_at(tokens: Seq<TokenView>, i: int) -> Result<
    ExpressionView,
    ParserErrorView,
> {
    match token_at(tokens, i) {
        TokenView::Int(value) => Ok(ExpressionView::IntegerLiteral(value)),
        other => Err(ParserErrorView::ExpectToken { expected: "Int"@, found: other.text() }),
    }
}

/// The expression that starts at token `i` and extends over every infix
/// operator that binds stronger than `min`: its first term, extended to the
/// right. It ends on its last token. On a failure the index is that of the
/// token at which it was met.
///
/// A term never ends before it starts, so the test on `first.at` holds of
/// every term ([`lemma_expression_unfolds`]); it is there to show that the
/// definition ends.
pub open spec fn expression(tokens: Seq<TokenView>, i: int, min: Precedence) -> Parsed<
    ExpressionView,
>
    decreases remaining(tokens, i), 2int,
{
    let first = primary(tokens, i);
    if first.result is Ok && first.at >= i {
        climb(tokens, first.at, first.result->Ok_0, min)
    } else {
        first
    }
}

/// The term that starts at token `i`: an identifier, an integer literal, or
/// a prefix operator with its operand.
pub open spec fn primary(tokens: Seq<TokenView>, i: int) -> Parsed<ExpressionView>
    decreases remaining(tokens, i), 1int,
{
    match token_at(tokens, i) {
        TokenView::Ident(_) => Parsed { result: identifier_at(tokens, i), at: i },
        TokenView::Int(_) => Parsed { result: integer_at(tokens, i), at: i },
        TokenView::Bang => prefix(tokens, i),
        TokenView::Minus => prefix(tokens, i),
        other => Parsed { result: Err(ParserErrorView::ExpectExpression(other.text())), at: i },
    }
}

/// The application of the operator at token `i` to the operand after it,
/// which is parsed at the strength `Prefix`.
pub open spec fn prefix(tokens: Seq<TokenView>, i: int) -> Parsed<ExpressionView>
    decreases remaining(tokens, i), 0int,
{
    let token = token_at(tokens, i);
    match operator_for(token) {
        Err(e) => Parsed { result: Err(e), at: i },
        Ok(operator) => {
            let operand = expression(tokens, i + 1, Precedence::Prefix);
            match operand.result {
                Ok(right) => Parsed {
                    result: Ok(ExpressionView::Prefix { token, operator, right: Box::new(right) }),
                    at: operand.at,
                },
                Err(e) => Parsed { result: Err(e), at: operand.at },
            }
        },
    }
}

/// The application of the operator at token `i` to `left` and to the operand
/// after it, which is parsed at the operator's own strength.
pub open spec fn infix(tokens: Seq<TokenView>, i: int, left: ExpressionView) -> Parsed<
    ExpressionView,
>
    decreases remaining(tokens, i), 0int,
{
    let token = token_at(tokens, i);
    match operator_for(token) {
        Err(e) => Parsed { result: Err(e), at: i },
        Ok(operator) => {
            let operand = expression(tokens, i + 1, precedence_of(token));
            match operand.result {
                Ok(right) => Parsed {
                    result: Ok(
                        ExpressionView::Infix {
                            token,
                            left: Box::new(left),
                            operator,
                            right: Box::new(right),
                        },
                    ),
                    at: operand.at,
                },
                Err(e) => Parsed { result: Err(e), at: operand.at },
            }
        },
    }
}

/// Whether the expression that ends at token `i` goes on with the token
/// after it: that token is no semicolon and binds stronger than `min`. Only
/// the eight infix operators do.
pub open spec fn continues(tokens: Seq<TokenView>, i: int, min: Precedence) -> bool {
    !(token_at(tokens, i + 1) is Semicolon) && min.rank() < precedence_of(
        token_at(tokens, i + 1),
    ).rank()
}

/// The expression `left`, which ends at token `i`, extended to the right as
/// long as an operator follows that binds stronger than `min`. Each such
/// operator takes what has been built so far as its left operand.
///
/// An operator with its operand ends after the operator, so the test on
/// `step.at` holds of every step ([`lemma_climb_unfolds`]); it is there to
/// show that the definition ends.
pub open spec fn climb(tokens: Seq<TokenView>, i: int, left: ExpressionView, min: Precedence)
    -> Parsed<ExpressionView>
    decreases remaining(tokens, i), 1int,
{
    if continues(tokens, i, min) {
        let step = infix(tokens, i + 1, left);
        if step.result is Ok && step.at > i {
            climb(tokens, step.at, step.result->Ok_0, min)
        } else {
            step
        }
    } else {
        Parsed { result: Ok(left), at: i }
    }
}

/// Where the skip to the end of a statement stops: at the first index from
/// `i` on whose next token is a semicolon. It also stops where that token is
/// the end marker and no token of the stream comes after it, since no
/// semicolon can follow then.
pub open spec fn skip_end(tokens: Seq<TokenView>, i: int) -> int
    decreases remaining(tokens, i),
{
    let next = token_at(tokens, i + 1);
    if next is Semicolon || (next is EOF && i + 2 >= tokens.len()) {
        i
    } else {
        skip_end(tokens, i + 1)
    }
}

/// The `let` statement whose keyword is token `i`: a name, `=`, an
/// expression, then whatever stands before the next semicolon.
pub open spec fn let_statement(tokens: Seq<TokenView>, i: int) -> Parsed<StatementView> {
    match token_at(tokens, i + 1) {
        TokenView::Ident(name) => {
            if token_at(tokens, i + 2) is Assign {
                let value = expression(tokens, i + 3, Precedence::Lowest);
                match value.result {
                    Ok(e) => Parsed {
                        result: Ok(StatementView::Let(name, e)),
                        at: skip_end(tokens, value.at),
                    },
                    Err(e) => Parsed { result: Err(e), at: value.at },
                }
            } else {
                Parsed {
                    result: Err(
                        ParserErrorView::ExpectToken {
                            expected: TokenView::Assign.text(),
                            found: token_at(tokens, i + 2).text(),
                        },
                    ),
                    at: i + 1,
                }
            }
        },
        other => Parsed {
            result: Err(
                ParserErrorView::ExpectToken { expected: "_"@, found: other.text() },
            ),
            at: i,
        },
    }
}

/// The `return` statement whose keyword is token `i`: an expression, then
/// whatever stands before the next semicolon.
pub open spec fn return_statement(tokens: Seq<TokenView>, i: int) -> Parsed<StatementView> {
    let value = expression(tokens, i + 1, Precedence::Lowest);
    match value.result {
        Ok(e) => Parsed { result: Ok(StatementView::Return(e)), at: skip_end(tokens, value.at) },
        Err(e) => Parsed { result: Err(e), at: value.at },
    }
}

/// The expression statement that starts at token `i`. A semicolon right
/// after the expression belongs to it.
pub open spec fn expression_statement(tokens: Seq<TokenView>, i: int) -> Parsed<StatementView> {
    let value = expression(tokens, i, Precedence::Lowest);
    match value.result {
        Ok(e) => Parsed {
            result: Ok(StatementView::Expr(e)),
            at: if token_at(tokens, value.at + 1) is Semicolon {
                value.at + 1
            } else {
                value.at
            },
        },
        Err(e) => Parsed { result: Err(e), at: value.at },
    }
}

/// The statement that starts at token `i`.
pub open spec fn statement(tokens: Seq<TokenView>, i: int) -> Parsed<StatementView> {
    match token_at(tokens, i) {
        TokenView::Let => let_statement(tokens, i),
        TokenView::Return => return_statement(tokens, i),
        _ => expression_statement(tokens, i),
    }
}


/// No parsing step of an expression moves backwards.
pub proof fn lemma_expression_advances(tokens: Seq<TokenView>, i: int, min: Precedence)
    ensures
        expression(tokens, i, min).at >= i,
        primary(tokens, i).at >= i,
        prefix(tokens, i).at >= i,
    decreases remaining(tokens, i), 2int,
{
    let token = token_at(tokens, i);
    if operator_for(token) is Ok {
        lemma_expression_advances(tokens, i + 1, Precedence::Prefix);
    }
    let first = primary(tokens, i);
    if first.result is Ok && first.at >= i {
        lemma_climb_advances(tokens, first.at, first.result->Ok_0, min);
    }
}

/// An infix operator and its right operand end after the operator.
pub proof fn lemma_infix_advances(tokens: Seq<TokenView>, i: int, left: ExpressionView)
    ensures
        infix(tokens, i, left).at >= i,
        infix(tokens, i, left).result is Ok ==> infix(tokens, i, left).at > i,
    decreases remaining(tokens, i), 0int,
{
    let token = token_at(tokens, i);
    if operator_for(token) is Ok {
        lemma_expression_advances(tokens, i + 1, precedence_of(token));
    }
}

/// Extending an expression to the right never moves backwards.
pub proof fn lemma_climb_advances(
    tokens: Seq<TokenView>,
    i: int,
    left: ExpressionView,
    min: Precedence,
)
    ensures
        climb(tokens, i, left, min).at >= i,
    decreases remaining(tokens, i), 1int,
{
    if continues(tokens, i, min) {
        lemma_infix_advances(tokens, i + 1, left);
        let step = infix(tokens, i + 1, left);
        if step.result is Ok && step.at > i {
            lemma_climb_advances(tokens, step.at, step.result->Ok_0, min);
        }
    }
}

/// The skip to the end of a statement never moves backwards. It passes no
/// semicolon, and it stops before the first one, or else where the stream
/// has ended.
pub proof fn lemma_skip_advances(tokens: Seq<TokenView>, i: int)
    ensures
        skip_end(tokens, i) >= i,
        forall|k: int| i <= k < skip_end(tokens, i) ==> !(#[trigger] token_at(tokens, k + 1)
            is Semicolon),
        token_at(tokens, skip_end(tokens, i) + 1) is Semicolon || (token_at(
            tokens,
            skip_end(tokens, i) + 1,
        ) is EOF && skip_end(tokens, i) + 2 >= tokens.len()),
    decreases remaining(tokens, i),
{
    let next = token_at(tokens, i + 1);
    if !(next is Semicolon || (next is EOF && i + 2 >= tokens.len())) {
        lemma_skip_advances(tokens, i + 1);
    }
}

/// No statement moves backwards.
pub proof fn lemma_statement_advances(tokens: Seq<TokenView>, i: int)
    ensures
        statement(tokens, i).at >= i,
{
    lemma_expression_advances(tokens, i, Precedence::Lowest);
    lemma_expression_advances(tokens, i + 1, Precedence::Lowest);
    lemma_expression_advances(tokens, i + 3, Precedence::Lowest);
    lemma_skip_advances(tokens, expression(tokens, i + 1, Precedence::Lowest).at);
    lemma_skip_advances(tokens, expression(tokens, i + 3, Precedence::Lowest).at);
}

/// What a pass over the statements gathers: the statements that parsed, the
/// failures of those that did not, both in source order, and the index of
/// the end marker at which the pass stopped.
pub struct Collected {
    pub statements: Seq<StatementView>,
    pub errors: Seq<ParserErrorView>,
    pub end: int,
}

/// The pass over the statements from token `i` on. Up to the first end
/// marker, it takes one statement, keeps it or its failure, moves one token
/// on, and goes on from there.
pub open spec fn collect(tokens: Seq<TokenView>, i: int) -> Collected
    decreases remaining(tokens, i),
{
    if token_at(tokens, i) is EOF {
        Collected { statements: Seq::empty(), errors: Seq::empty(), end: i }
    } else {
        proof {
            lemma_statement_advances(tokens, i);
        }
        let step = statement(tokens, i);
        let rest = collect(tokens, step.at + 1);
        match step.result {
            Ok(s) => Collected {
                statements: seq![s] + rest.statements,
                errors: rest.errors,
                end: rest.end,
            },
            Err(e) => Collected {
                statements: rest.statements,
                errors: seq![e] + rest.errors,
                end: rest.end,
            },
        }
    }
}

/// The result of a parse: the program, if no failure was met in this pass
/// or recorded before it, and else all the failures, the earlier ones first.
pub open spec fn program_result(earlier: Seq<ParserErrorView>, found: Collected) -> Result<
    Seq<StatementView>,
    Seq<ParserErrorView>,
> {
    if (earlier + found.errors).len() == 0 {
        Ok(found.statements)
    } else {
        Err(earlier + found.errors)
    }
}


/// An expression is its first term, extended to the right.
pub proof fn lemma_expression_unfolds(tokens: Seq<TokenView>, i: int, min: Precedence)
    ensures
        expression(tokens, i, min) == match primary(tokens, i).result {
            Ok(left) => climb(tokens, primary(tokens, i).at, left, min),
            Err(_) => primary(tokens, i),
        },
{
    lemma_expression_advances(tokens, i, min);
}

/// Where an operator follows that binds stronger than `min`, the expression
/// built so far becomes its left operand, and what results is extended in
/// turn; a failure on the way ends the expression.
pub proof fn lemma_climb_unfolds(
    tokens: Seq<TokenView>,
    i: int,
    left: ExpressionView,
    min: Precedence,
)
    ensures
        climb(tokens, i, left, min) == if continues(tokens, i, min) {
            match infix(tokens, i + 1, left).result {
                Ok(e) => climb(tokens, infix(tokens, i + 1, left).at, e, min),
                Err(_) => infix(tokens, i + 1, left),
            }
        } else {
            Parsed { result: Ok(left), at: i }
        },
{
    lemma_infix_advances(tokens, i + 1, left);
}

/// Every operator of a parsed expression is the one that its token stands
/// for.
pub proof fn lemma_expression_wf(tokens: Seq<TokenView>, i: int, min: Precedence)
    ensures
        expression(tokens, i, min).result matches Ok(e) ==> e.wf(),
        primary(tokens, i).result matches Ok(e) ==> e.wf(),
        prefix(tokens, i).result matches Ok(e) ==> e.wf(),
    decreases remaining(tokens, i), 2int,
{
    let token = token_at(tokens, i);
    if operator_for(token) is Ok {
        lemma_expression_wf(tokens, i + 1, Precedence::Prefix);
    }
    let first = primary(tokens, i);
    if first.result is Ok && first.at >= i {
        lemma_climb_wf(tokens, first.at, first.result->Ok_0, min);
    }
}

/// Extending a well-formed expression gives a well-formed expression.
pub proof fn lemma_climb_wf(tokens: Seq<TokenView>, i: int, left: ExpressionView, min: Precedence)
    requires
        left.wf(),
    ensures
        climb(tokens, i, left, min).result matches Ok(e) ==> e.wf(),
        infix(tokens, i + 1, left).result matches Ok(e) ==> e.wf(),
    decreases remaining(tokens, i), 1int,
{
    let token = token_at(tokens, i + 1);
    if operator_for(token) is Ok {
        lemma_expression_wf(tokens, i + 2, precedence_of(token));
    }
    if continues(tokens, i, min) {
        let step = infix(tokens, i + 1, left);
        if step.result is Ok && step.at > i {
            lemma_climb_wf(tokens, step.at, step.result->Ok_0, min);
        }
    }
}

/// Every operator of a parsed statement is the one that its token stands
/// for.
pub proof fn lemma_statement_wf(tokens: Seq<TokenView>, i: int)
    ensures
        statement(tokens, i).result matches Ok(s) ==> s.expression().wf(),
{
    lemma_expression_wf(tokens, i, Precedence::Lowest);
    lemma_expression_wf(tokens, i + 1, Precedence::Lowest);
    lemma_expression_wf(tokens, i + 3, Precedence::Lowest);
}

/// Every operator of every statement that a pass keeps is the one that its
/// token stands for.
pub proof fn lemma_collect_wf(tokens: Seq<TokenView>, i: int)
    ensures
        forall|k: int|
            0 <= k < collect(tokens, i).statements.len() ==> (#[trigger] collect(
                tokens,
                i,
            ).statements[k]).expression().wf(),
    decreases remaining(tokens, i),
{
    if !(token_at(tokens, i) is EOF) {
        lemma_statement_advances(tokens, i);
        lemma_statement_wf(tokens, i);
        lemma_collect_wf(tokens, statement(tokens, i).at + 1);
    }
}

/// No failure is dropped and none hides another: a statement that parses is
/// the first of those kept, a statement that fails gives the first of the
/// failures, and the pass goes on one token after either. The parse yields a
/// program only if no failure at all is recorded.
pub proof fn law_every_failure_is_reported(
    tokens: Seq<TokenView>,
    i: int,
    earlier: Seq<ParserErrorView>,
)
    requires
        !(token_at(tokens, i) is EOF),
    ensures
        ({
            let step = statement(tokens, i);
            let rest = collect(tokens, step.at + 1);
            let all = collect(tokens, i);
            match step.result {
                Ok(s) => all.statements == seq![s] + rest.statements && all.errors
                    == rest.errors,
                Err(e) => all.statements == rest.statements && all.errors == seq![e]
                    + rest.errors,
            }
        }),
        program_result(earlier, collect(tokens, i)) is Ok <==> earlier.len() == 0 && collect(
            tokens,
            i,
        ).errors.len() == 0,
        program_result(earlier, collect(tokens, i)) matches Err(errors) ==> errors == earlier
            + collect(tokens, i).errors,
{
}

} // verus!
