//! Laws that relate the tokenizer, the parser and the canonical text.

use crate::ast::{statements_text, ExpressionView, StatementView};
use crate::decimal::{digit_char, nat_digits};
use crate::error::ParserErrorView;
use crate::grammar::{
    climb, collect, expression, expression_statement, primary, statement, token_at,
};
use crate::lexer::{
    ascii_text, digits_end, digits_value, is_digit, is_letter, lemma_ascii_decode,
    lemma_digits_end, lemma_letters_end, lemma_lexeme_advances,
    lemma_readable_tokens_of_fitting_text, lexeme_at, literals_fit, spaces_end, tokens_from,
    word_token, DIGIT_ZERO,
};
use crate::parser::{overruns, parse_text};
use crate::precedence::Precedence;
use crate::token::TokenView;
use vstd::prelude::*;
use vstd::utf8::encode_utf8;

verus! {

/// A run of digits that is the decimal notation of a 32-bit signed number:
/// not empty, without a leading zero unless it is the single digit 0, and
/// within range.
pub open spec fn is_canonical_literal(run: Seq<u8>) -> bool {
    &&& run.len() > 0
    &&& run.len() > 1 ==> run[0] != DIGIT_ZERO
    &&& digits_value(run) <= i32::MAX
}

/// Whether the text from `from` on is plain: identifiers and canonical
/// integer literals, one right after the other, with nothing else in it.
pub open spec fn is_plain(bytes: Seq<u8>, from: int) -> bool
    decreases bytes.len() - from,
{
    if 0 <= from < bytes.len() {
        proof {
            lemma_lexeme_advances(bytes, from);
        }
        let lexeme = lexeme_at(bytes, from);
        &&& (is_letter(bytes[from]) && lexeme.token is Ident) || (is_digit(bytes[from])
            && is_canonical_literal(bytes.subrange(from, digits_end(bytes, from))))
        &&& is_plain(bytes, lexeme.end)
    } else {
        true
    }
}

/// The display forms of the tokens of a stream, one after the other.
pub open spec fn stream_text(tokens: Seq<TokenView>) -> Seq<char>
    decreases tokens.len(),
{
    if tokens.len() == 0 {
        Seq::empty()
    } else {
        tokens[0].text() + stream_text(tokens.drop_first())
    }
}

/// A run of digits that begins with a digit other than 0 is the decimal
/// notation of its value, which is not 0.
proof fn lemma_leading_digit(run: Seq<u8>)
    requires
        run.len() > 0,
        run[0] != DIGIT_ZERO,
        forall|k: int| 0 <= k < run.len() ==> is_digit(#[trigger] run[k]),
    ensures
        nat_digits(digits_value(run)) == ascii_text(run),
        digits_value(run) >= 1,
    decreases run.len(),
{
    let init = run.drop_last();
    let d = run.last() - DIGIT_ZERO;
    assert(digit_char(d) == run.last() as char);
    if init.len() == 0 {
        assert(digits_value(init) == 0);
        assert(nat_digits(digits_value(run)) =~= ascii_text(run));
    } else {
        lemma_leading_digit(init);
        let v = digits_value(init);
        assert(digits_value(run) == v * 10 + d);
        assert(digits_value(run) / 10 == v);
        assert(digits_value(run) % 10 == d);
        assert(nat_digits(digits_value(run)) =~= ascii_text(run));
    }
}

/// A run of digits without a needless leading zero is the decimal notation
/// of its value.
pub proof fn lemma_canonical_digits(run: Seq<u8>)
    requires
        run.len() > 0,
        run.len() > 1 ==> run[0] != DIGIT_ZERO,
        forall|k: int| 0 <= k < run.len() ==> is_digit(#[trigger] run[k]),
    ensures
        nat_digits(digits_value(run)) == ascii_text(run),
{
    if run[0] != DIGIT_ZERO {
        lemma_leading_digit(run);
    } else {
        assert(digits_value(run.drop_last()) == 0);
        assert(digit_char(0) == run.last() as char);
        assert(nat_digits(digits_value(run)) =~= ascii_text(run));
    }
}

/// The tokens of a plain text are identifiers and integer literals, and
/// their display forms, put together, are the text.
pub proof fn lemma_plain_tokens(bytes: Seq<u8>, from: int)
    requires
        0 <= from <= bytes.len(),
        is_plain(bytes, from),
    ensures
        forall|k: int|
            0 <= k < tokens_from(bytes, from).len() ==> (#[trigger] tokens_from(bytes, from)[k])
                is Ident || tokens_from(bytes, from)[k] is Int,
        stream_text(tokens_from(bytes, from)) == ascii_text(
            bytes.subrange(from, bytes.len() as int),
        ),
        forall|k: int| from <= k < bytes.len() ==> #[trigger] bytes[k] < 128,
    decreases bytes.len() - from,
{
    let whole = bytes.subrange(from, bytes.len() as int);
    if from < bytes.len() {
        lemma_lexeme_advances(bytes, from);
        let lexeme = lexeme_at(bytes, from);
        let end = lexeme.end;
        lemma_plain_tokens(bytes, end);
        let rest = tokens_from(bytes, end);
        let tokens = tokens_from(bytes, from);
        assert(tokens == seq![lexeme.token] + rest);
        assert(tokens.drop_first() =~= rest);
        assert(spaces_end(bytes, from) == from);
        let run = bytes.subrange(from, end);
        if is_letter(bytes[from]) {
            lemma_letters_end(bytes, from);
            assert(lexeme.token == word_token(ascii_text(run)));
            assert(lexeme.token.text() == ascii_text(run));
        } else {
            lemma_digits_end(bytes, from);
            lemma_canonical_digits(run);
            assert(lexeme.token == TokenView::Int(digits_value(run) as i32));
            assert(lexeme.token.text() == ascii_text(run));
        }
        assert(whole =~= run + bytes.subrange(end, bytes.len() as int));
        assert(ascii_text(whole) =~= ascii_text(run) + ascii_text(
            bytes.subrange(end, bytes.len() as int),
        ));
        assert forall|k: int| from <= k < bytes.len() implies #[trigger] bytes[k] < 128 by {
            if k < end {
                assert(run[k - from] == bytes[k]);
            }
        }
    } else {
        assert(ascii_text(whole) =~= Seq::<char>::empty());
    }
}

/// The text of a statement followed by others is its own text followed by
/// theirs.
pub proof fn lemma_statements_text_front(first: StatementView, rest: Seq<StatementView>)
    ensures
        statements_text(seq![first] + rest) == first.text() + statements_text(rest),
    decreases rest.len(),
{
    let all = seq![first] + rest;
    if rest.len() == 0 {
        assert(all.drop_last() =~= Seq::<StatementView>::empty());
        assert(statements_text(all.drop_last()) =~= Seq::<char>::empty());
        assert(statements_text(all) =~= first.text() + statements_text(rest));
    } else {
        lemma_statements_text_front(first, rest.drop_last());
        assert(all.drop_last() =~= seq![first] + rest.drop_last());
        assert(all.last() == rest.last());
        assert(statements_text(all) =~= first.text() + statements_text(rest));
    }
}

/// A stream of identifiers and integer literals parses without failure into
/// one expression statement for each token, and the canonical text of these
/// statements is the display forms of the tokens put together.
pub proof fn lemma_atoms_parse(tokens: Seq<TokenView>, i: int)
    requires
        0 <= i <= tokens.len(),
        forall|k: int| 0 <= k < tokens.len() ==> (#[trigger] tokens[k]) is Ident || tokens[k] is Int,
        forall|k: int|
            0 <= k < tokens.len() ==> ((#[trigger] tokens[k]) matches TokenView::Int(v) ==> v
                >= 0),
    ensures
        collect(tokens, i).errors == Seq::<ParserErrorView>::empty(),
        statements_text(collect(tokens, i).statements) == stream_text(
            tokens.subrange(i, tokens.len() as int),
        ),
    decreases tokens.len() - i,
{
    let tail = tokens.subrange(i, tokens.len() as int);
    if i < tokens.len() {
        let token = tokens[i];
        assert(token_at(tokens, i) == token);
        let next = token_at(tokens, i + 1);
        assert(next is Ident || next is Int || next is EOF);
        let first = primary(tokens, i);
        assert(first.at == i);
        let atom = first.result->Ok_0;
        assert(climb(tokens, i, atom, Precedence::Lowest).at == i);
        let value = expression(tokens, i, Precedence::Lowest);
        assert(value.result == Ok::<ExpressionView, ParserErrorView>(atom));
        let step = statement(tokens, i);
        assert(step == expression_statement(tokens, i));
        assert(step.at == i);
        let parsed = step.result->Ok_0;
        assert(parsed == StatementView::Expr(atom));
        assert(parsed.text() == token.text());
        lemma_atoms_parse(tokens, i + 1);
        let rest = collect(tokens, i + 1);
        lemma_statements_text_front(parsed, rest.statements);
        assert(tail[0] == token);
        assert(tail.drop_first() =~= tokens.subrange(i + 1, tokens.len() as int));
    } else {
        assert(tail =~= Seq::<TokenView>::empty());
        assert(statements_text(collect(tokens, i).statements) =~= Seq::<char>::empty());
    }
}

/// An integer literal that the tokenizer yields is never negative.
pub proof fn lemma_literals_are_natural(bytes: Seq<u8>, from: int)
    requires
        0 <= from <= bytes.len(),
        is_plain(bytes, from),
    ensures
        forall|k: int|
            0 <= k < tokens_from(bytes, from).len() ==> ((#[trigger] tokens_from(
                bytes,
                from,
            )[k]) matches TokenView::Int(v) ==> v >= 0),
    decreases bytes.len() - from,
{
    if from < bytes.len() {
        lemma_lexeme_advances(bytes, from);
        let lexeme = lexeme_at(bytes, from);
        lemma_literals_are_natural(bytes, lexeme.end);
        let rest = tokens_from(bytes, lexeme.end);
        let tokens = tokens_from(bytes, from);
        assert(tokens == seq![lexeme.token] + rest);
        assert(spaces_end(bytes, from) == from);
        assert forall|k: int| 0 <= k < tokens.len() implies ((#[trigger] tokens[k]) matches TokenView::Int(
            v,
        ) ==> v >= 0) by {
            if k > 0 {
                assert(tokens[k] == rest[k - 1]);
            }
        }
    }
}

/// Every literal of a plain text fits.
pub proof fn lemma_plain_text_fits(bytes: Seq<u8>, from: int)
    requires
        0 <= from <= bytes.len(),
        is_plain(bytes, from),
    ensures
        literals_fit(bytes, from),
    decreases bytes.len() - from,
{
    if from < bytes.len() {
        lemma_lexeme_advances(bytes, from);
        assert(spaces_end(bytes, from) == from);
        lemma_plain_text_fits(bytes, lexeme_at(bytes, from).end);
    }
}

/// A plain text is a fixed point of parsing and rendering: it parses
/// without failure, and the canonical text of the program is the text
/// itself.
pub proof fn law_plain_text_is_a_fixed_point(text: Seq<char>)
    requires
        is_plain(encode_utf8(text), 0),
    ensures
        !overruns(text),
        parse_text(text) matches Ok(program) && statements_text(program) == text,
{
    let bytes = encode_utf8(text);
    let tokens = tokens_from(bytes, 0);
    lemma_plain_text_fits(bytes, 0);
    lemma_readable_tokens_of_fitting_text(bytes, 0);
    lemma_plain_tokens(bytes, 0);
    lemma_literals_are_natural(bytes, 0);
    lemma_atoms_parse(tokens, 0);
    lemma_ascii_decode(text, bytes);
    assert(bytes.subrange(0, bytes.len() as int) =~= bytes);
    assert(tokens.subrange(0, tokens.len() as int) =~= tokens);
    assert(Seq::<ParserErrorView>::empty() + collect(tokens, 0).errors =~= Seq::<
        ParserErrorView,
    >::empty());
}

/// Rendering again changes nothing: where the canonical text of a parsed
/// program is plain, that text parses without failure, and the canonical
/// text of what it parses to is the same text. (This leaves out every
/// canonical text that holds an operator or a keyword: the parentheses and
/// the semicolon that it is written with do not parse back.)
pub proof fn law_rerender_is_idempotent(source: Seq<char>)
    requires
        !overruns(source),
        parse_text(source) is Ok,
        is_plain(encode_utf8(statements_text(parse_text(source)->Ok_0)), 0),
    ensures
        !overruns(statements_text(parse_text(source)->Ok_0)),
        parse_text(statements_text(parse_text(source)->Ok_0)) matches Ok(again)
            && statements_text(again) == statements_text(parse_text(source)->Ok_0),
{
    law_plain_text_is_a_fixed_point(statements_text(parse_text(source)->Ok_0));
}

} // verus!
