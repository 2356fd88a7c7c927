//! The parser: it pulls tokens from the tokenizer, two at a time, builds
//! statements and expressions by precedence climbing, and gathers its
//! failures instead of stopping at the first.

use crate::ast::{
    Expression, ExpressionView, Identifier, Operator, Program, Statement, StatementView,
};
use crate::error::{ParserError, ParserErrorView, ParserErrors};
use crate::grammar::{
    climb, collect, expression, expression_statement, identifier_at, infix, integer_at,
    lemma_expression_advances, lemma_infix_advances, lemma_statement_advances, let_statement,
    operator_for, prefix, program_result, remaining, return_statement, skip_end, statement,
    token_at,
};
use crate::lexer::{
    lemma_lexeme_advances, lemma_lexeme_at_end, lexeme_at, literal_fits, literals_fit,
    readable_tokens, Lexer,
};
use crate::precedence::Precedence;
use crate::token::{Token, TokenView};
use vstd::prelude::*;
use vstd::string::*;
use vstd::utf8::encode_utf8;

verus! {

/// The stream from index `k` on; empty past its end.
pub open spec fn rest_of(tokens: Seq<TokenView>, k: int) -> Seq<TokenView> {
    if 0 <= k <= tokens.len() {
        tokens.subrange(k, tokens.len() as int)
    } else {
        Seq::empty()
    }
}

/// The mathematical value of the result of parsing an expression.
pub open spec fn expression_outcome(result: Result<Expression, ParserError>) -> Result<
    ExpressionView,
    ParserErrorView,
> {
    match result {
        Ok(e) => Ok(e@),
        Err(e) => Err(e@),
    }
}

/// The mathematical value of the result of parsing a statement.
pub open spec fn statement_outcome(result: Result<Statement, ParserError>) -> Result<
    StatementView,
    ParserErrorView,
> {
    match result {
        Ok(s) => Ok(s@),
        Err(e) => Err(e@),
    }
}

/// The mathematical value of the result of parsing a program.
pub open spec fn program_outcome(result: Result<Program, ParserErrors>) -> Result<
    Seq<StatementView>,
    Seq<ParserErrorView>,
> {
    match result {
        Ok(p) => Ok(p@),
        Err(e) => Err(e@),
    }
}

/// The mathematical value of the result of reading an operator.
pub open spec fn operator_outcome(result: Result<Operator, ParserError>) -> Result<
    Operator,
    ParserErrorView,
> {
    match result {
        Ok(operator) => Ok(operator),
        Err(e) => Err(e@),
    }
}

/// What the parser makes of a text that it reads from its first byte, with
/// no failure recorded before. Where a literal of the text cannot be
/// represented, this is what it makes of the text before that literal.
pub open spec fn parse_text(text: Seq<char>) -> Result<
    Seq<StatementView>,
    Seq<ParserErrorView>,
> {
    program_result(Seq::empty(), collect(readable_tokens(encode_utf8(text), 0), 0))
}

/// Whether the parser, reading a text from its first byte, comes to an
/// integer literal that cannot be represented: the text holds one, and the
/// parse ends with the end marker that stands for it as the lookahead, or
/// past it.
pub open spec fn overruns(text: Seq<char>) -> bool {
    let tokens = readable_tokens(encode_utf8(text), 0);
    !literals_fit(encode_utf8(text), 0) && collect(tokens, 0).end + 2 >= tokens.len()
}

/// One step of the tokenizer yields the next token of the stream that the
/// rest of the text spells, and leaves the rest of that stream to come.
/// Where the next token cannot be represented, the stream ends with the end
/// marker that stands for it.
proof fn lemma_stream_step(bytes: Seq<u8>, cursor: int, tokens: Seq<TokenView>, k: int)
    requires
        0 <= cursor,
        0 <= k,
        readable_tokens(bytes, cursor) == rest_of(tokens, k),
    ensures
        literal_fits(bytes, cursor) ==> {
            &&& lexeme_at(bytes, cursor).token == token_at(tokens, k)
            &&& readable_tokens(bytes, lexeme_at(bytes, cursor).end) == rest_of(tokens, k + 1)
            &&& literals_fit(bytes, lexeme_at(bytes, cursor).end) == literals_fit(bytes, cursor)
        },
        !literal_fits(bytes, cursor) ==> {
            &&& token_at(tokens, k) is EOF
            &&& k + 1 == tokens.len()
            &&& !literals_fit(bytes, cursor)
        },
        cursor >= bytes.len() <==> k >= tokens.len(),
        !literals_fit(bytes, cursor) ==> k < tokens.len(),
{
    if cursor < bytes.len() {
        if literal_fits(bytes, cursor) {
            lemma_lexeme_advances(bytes, cursor);
            let rest = readable_tokens(bytes, lexeme_at(bytes, cursor).end);
            assert(readable_tokens(bytes, cursor) == seq![lexeme_at(bytes, cursor).token]
                + rest);
            assert(rest_of(tokens, k).len() > 0);
            assert(rest_of(tokens, k)[0] == tokens[k]);
            assert(rest =~= rest_of(tokens, k).subrange(1, rest_of(tokens, k).len() as int));
            assert(rest =~= rest_of(tokens, k + 1));
        } else {
            assert(readable_tokens(bytes, cursor) == seq![TokenView::EOF]);
            assert(rest_of(tokens, k).len() == 1);
            assert(rest_of(tokens, k)[0] == tokens[k]);
        }
    } else {
        lemma_lexeme_at_end(bytes, cursor);
        assert(readable_tokens(bytes, cursor).len() == 0);
        assert(rest_of(tokens, k + 1) =~= Seq::<TokenView>::empty());
    }
}

/// The operator that `token` stands for.
pub fn parse_to_operator(token: &Token) -> (result: Result<Operator, ParserError>)
    ensures
        operator_outcome(result) == operator_for(token@),
{
    Ok(
        match token {
            Token::Assign => Operator::Assign,
            Token::Plus => Operator::Plus,
            Token::Minus => Operator::Minus,
            Token::Bang => Operator::Bang,
            Token::Asterisk => Operator::Asterisk,
            Token::Slash => Operator::Slash,
            Token::Lt => Operator::Lt,
            Token::Gt => Operator::Gt,
            Token::Eq => Operator::Eq,
            Token::Neq => Operator::Neq,
            _ => return Err(ParserError::UnableToParseOperator(token.to_string())),
        },
    )
}

/// A parser over the tokens of one tokenizer. It holds the current token,
/// the token after it, and the failures met so far.
///
/// An integer literal that exceeds the largest 32-bit signed value cannot be
/// read. Where the parser comes to one, it takes the end marker in its place
/// and the text to end there, and `overran` tells so from then on.
pub struct Parser<'a> {
    lexer: Lexer<'a>,
    current_token: Token,
    peek_token: Token,
    errors: ParserErrors,
    overrun: bool,
    tokens: Ghost<Seq<TokenView>>,
    truncated: Ghost<bool>,
    index: Ghost<int>,
}

impl<'a> Parser<'a> {
    /// The stream of tokens that the parser reads: those of the text from
    /// the position at which the tokenizer was handed over, as far as they
    /// can be represented.
    pub closed spec fn tokens(&self) -> Seq<TokenView> {
        self.tokens@
    }

    /// Whether the stream ends before the end of the text, at a literal
    /// that cannot be represented.
    pub closed spec fn truncated(&self) -> bool {
        self.truncated@
    }

    /// The index of the current token in the stream.
    pub closed spec fn index(&self) -> int {
        self.index@
    }

    /// The failures recorded so far.
    pub closed spec fn errors(&self) -> Seq<ParserErrorView> {
        self.errors@
    }

    /// The parser holds the token at its index and the one after it, and its
    /// tokenizer stands right behind these two, or at the literal that it
    /// cannot read.
    pub closed spec fn wf(&self) -> bool {
        &&& self.lexer.wf()
        &&& self.index@ >= -2
        &&& self.current_token@ == token_at(self.tokens@, self.index@)
        &&& self.peek_token@ == token_at(self.tokens@, self.index@ + 1)
        &&& self.overrun ==> self.truncated@ && self.index@ + 2 >= self.tokens@.len()
        &&& !self.overrun ==> {
            &&& readable_tokens(self.lexer.bytes(), self.lexer.cursor()) == rest_of(
                self.tokens@,
                self.index@ + 2,
            )
            &&& self.truncated@ == !literals_fit(self.lexer.bytes(), self.lexer.cursor())
        }
    }

    /// Whether the parser has come to a literal that cannot be represented:
    /// the stream ends at one, and the lookahead is the end marker that
    /// stands for it, or lies past it.
    pub open spec fn has_overrun(&self) -> bool {
        self.truncated() && self.index() + 2 >= self.tokens().len()
    }

    /// Whether `after` is this parser moved along its stream: the same
    /// stream, the same failures.
    pub open spec fn moved_to(&self, after: &Parser<'a>) -> bool {
        &&& after.wf()
        &&& after.tokens() == self.tokens()
        &&& after.truncated() == self.truncated()
        &&& after.errors() == self.errors()
    }

    /// A parser on the first two tokens that `lexer` yields.
    pub fn new(lexer: Lexer<'a>) -> (parser: Parser<'a>)
        requires
            lexer.wf(),
        ensures
            parser.wf(),
            parser.tokens() == readable_tokens(lexer.bytes(), lexer.cursor()),
            parser.truncated() == !literals_fit(lexer.bytes(), lexer.cursor()),
            parser.index() == 0,
            parser.errors() == Seq::<ParserErrorView>::empty(),
    {
        let ghost tokens = readable_tokens(lexer.bytes(), lexer.cursor());
        let ghost truncated = !literals_fit(lexer.bytes(), lexer.cursor());
        let mut parser = Parser {
            lexer,
            current_token: Token::EOF,
            peek_token: Token::EOF,
            errors: ParserErrors(Vec::new()),
            overrun: false,
            tokens: Ghost(tokens),
            truncated: Ghost(truncated),
            index: Ghost(-2),
        };
        assert(parser.errors@ =~= Seq::<ParserErrorView>::empty());
        assert(rest_of(tokens, 0) =~= tokens);
        parser.next_token();
        parser.next_token();
        parser
    }

    /// The current token.
    pub fn current_token(&self) -> (token: &Token)
        requires
            self.wf(),
        ensures
            token@ == token_at(self.tokens(), self.index()),
    {
        &self.current_token
    }

    /// Whether the parser has come to a literal that cannot be represented.
    /// What it has parsed since is what it makes of the text before that
    /// literal.
    pub fn overran(&self) -> (yes: bool)
        requires
            self.wf(),
        ensures
            yes == self.has_overrun(),
    {
        proof {
            self.lemma_exhausted();
        }
        self.overrun
    }

    /// The tokenizer has nothing more to give exactly when the lookahead is
    /// the last token of the stream, or lies past it.
    proof fn lemma_exhausted(&self)
        requires
            self.wf(),
        ensures
            (self.overrun || self.lexer.cursor() >= self.lexer.bytes().len()) <==> self.index()
                + 2 >= self.tokens().len(),
            self.overrun == self.has_overrun(),
    {
        if !self.overrun {
            lemma_stream_step(
                self.lexer.bytes(),
                self.lexer.cursor(),
                self.tokens@,
                self.index@ + 2,
            );
        }
    }

    /// Moves one token on: the lookahead becomes the current token, and the
    /// tokenizer yields the new lookahead.
    pub fn next_token(&mut self)
        requires
            old(self).wf(),
        ensures
            old(self).moved_to(final(self)),
            final(self).index() == old(self).index() + 1,
    {
        proof {
            if !self.overrun {
                lemma_stream_step(
                    self.lexer.bytes(),
                    self.lexer.cursor(),
                    self.tokens@,
                    self.index@ + 2,
                );
            }
        }
        self.current_token = self.peek_token.clone();
        if self.overrun {
            self.peek_token = Token::EOF;
        } else if self.lexer.next_literal_fits() {
            self.peek_token = self.lexer.next_token();
        } else {
            self.peek_token = Token::EOF;
            self.overrun = true;
        }
        self.index = Ghost(self.index@ + 1);
    }

    /// Whether the lookahead is of the variant of `t`, whatever it carries.
    fn peek_token_is(&self, t: &Token) -> (yes: bool)
        ensures
            yes == t@.same_variant(self.peek_token@),
    {
        match t {
            Token::Ident(_) => match self.peek_token {
                Token::Ident(_) => true,
                _ => false,
            },
            Token::Int(_) => match self.peek_token {
                Token::Int(_) => true,
                _ => false,
            },
            t => self.peek_token == *t,
        }
    }

    /// Moves onto the lookahead if it is of the variant of `token`, and
    /// fails without moving if it is not.
    fn expect_peek(&mut self, token: Token) -> (result: Result<(), ParserError>)
        requires
            old(self).wf(),
        ensures
            old(self).moved_to(final(self)),
            token@.same_variant(token_at(old(self).tokens(), old(self).index() + 1)) ==> result
                is Ok && final(self).index() == old(self).index() + 1,
            !token@.same_variant(token_at(old(self).tokens(), old(self).index() + 1)) ==> result
                is Err && final(self).index() == old(self).index() && result->Err_0@
                == (ParserErrorView::ExpectToken {
                expected: token@.text(),
                found: token_at(old(self).tokens(), old(self).index() + 1).text(),
            }),
    {
        if self.peek_token_is(&token) {
            self.next_token();
            Ok(())
        } else {
            Err(
                ParserError::ExpectToken {
                    expected: token.to_string(),
                    found: self.peek_token.to_string(),
                },
            )
        }
    }

    /// The name that the current token spells, if it is an identifier.
    fn parse_indent(&self) -> (name: Option<Identifier>)
        ensures
            match self.current_token@ {
                TokenView::Ident(spelling) => name is Some && name->Some_0@ == spelling,
                _ => name is None,
            },
    {
        match &self.current_token {
            Token::Ident(i) => Some(Identifier(i.clone())),
            _ => None,
        }
    }

    /// The identifier expression that the current token names.
    fn parse_identifier(&self) -> (result: Result<Expression, ParserError>)
        requires
            self.wf(),
        ensures
            expression_outcome(result) == identifier_at(self.tokens(), self.index()),
    {
        match &self.current_token {
            Token::Ident(ident) => Ok(Expression::Ident(Identifier(ident.clone()))),
            t => Err(
                ParserError::ExpectToken { expected: "Ident".to_owned(), found: t.to_string() },
            ),
        }
    }

    /// The integer literal that the current token holds.
    fn parse_integer_literal(&self) -> (result: Result<Expression, ParserError>)
        requires
            self.wf(),
        ensures
            expression_outcome(result) == integer_at(self.tokens(), self.index()),
    {
        match &self.current_token {
            Token::Int(val) => Ok(Expression::IntegerLiteral(*val)),
            t => Err(
                ParserError::ExpectToken { expected: "Int".to_owned(), found: t.to_string() },
            ),
        }
    }

    /// Parses the prefix operator under the cursor and its operand.
    fn parse_prefix_expression(&mut self) -> (result: Result<Expression, ParserError>)
        requires
            old(self).wf(),
        ensures
            old(self).moved_to(final(self)),
            final(self).index() == prefix(old(self).tokens(), old(self).index()).at,
            expression_outcome(result) == prefix(old(self).tokens(), old(self).index()).result,
        decreases remaining(old(self).tokens(), old(self).index()), 0int,
    {
        let token = self.current_token.clone();
        let operator = match parse_to_operator(&self.current_token) {
            Ok(operator) => operator,
            Err(e) => {
                return Err(e);
            },
        };
        self.next_token();
        let right = match self.parse_expression(Precedence::Prefix) {
            Ok(e) => Box::new(e),
            Err(e) => {
                return Err(e);
            },
        };
        Ok(Expression::Prefix { token, operator, right })
    }

    /// Parses the infix operator under the cursor and its right operand, and
    /// applies the operator to `left` and to that operand.
    fn parse_infix_expression(&mut self, left: Box<Expression>) -> (result: Result<
        Expression,
        ParserError,
    >)
        requires
            old(self).wf(),
        ensures
            old(self).moved_to(final(self)),
            final(self).index() == infix(old(self).tokens(), old(self).index(), (*left)@).at,
            expression_outcome(result) == infix(
                old(self).tokens(),
                old(self).index(),
                (*left)@,
            ).result,
        decreases remaining(old(self).tokens(), old(self).index()), 0int,
    {
        let token = self.current_token.clone();
        let operator = match parse_to_operator(&self.current_token) {
            Ok(operator) => operator,
            Err(e) => {
                return Err(e);
            },
        };
        let precedence = Precedence::from(&self.current_token);
        self.next_token();
        let right = match self.parse_expression(precedence) {
            Ok(e) => Box::new(e),
            Err(e) => {
                return Err(e);
            },
        };
        Ok(Expression::Infix { token, left, operator, right })
    }

    /// Parses the expression that starts at the current token and extends
    /// over every infix operator that binds stronger than `precedence`.
    pub fn parse_expression(&mut self, precedence: Precedence) -> (result: Result<
        Expression,
        ParserError,
    >)
        requires
            old(self).wf(),
        ensures
            old(self).moved_to(final(self)),
            final(self).index() == expression(
                old(self).tokens(),
                old(self).index(),
                precedence,
            ).at,
            expression_outcome(result) == expression(
                old(self).tokens(),
                old(self).index(),
                precedence,
            ).result,
        decreases remaining(old(self).tokens(), old(self).index()), 2int,
    {
        let first = match &self.current_token {
            Token::Ident(_) => self.parse_identifier(),
            Token::Int(_) => self.parse_integer_literal(),
            Token::Bang | Token::Minus => self.parse_prefix_expression(),
            t => Err(ParserError::ExpectExpression(t.to_string())),
        };
        proof {
            lemma_expression_advances(old(self).tokens(), old(self).index(), precedence);
        }
        let mut left = match first {
            Ok(e) => e,
            Err(e) => {
                return Err(e);
            },
        };
        let ghost goal = expression(old(self).tokens(), old(self).index(), precedence);
        while !self.peek_token_is(&Token::Semicolon) && precedence.lower_than(
            &Precedence::from(&self.peek_token),
        )
            invariant
                old(self).moved_to(self),
                self.index() >= old(self).index(),
                goal == climb(self.tokens(), self.index(), left@, precedence),
                goal == expression(old(self).tokens(), old(self).index(), precedence),
            decreases remaining(self.tokens(), self.index()),
        {
            proof {
                lemma_infix_advances(self.tokens(), self.index() + 1, left@);
            }
            self.next_token();
            left = match self.parse_infix_expression(Box::new(left)) {
                Ok(e) => e,
                Err(e) => {
                    return Err(e);
                },
            };
        }
        Ok(left)
    }

    /// Moves on until a semicolon is the lookahead. Where the text ends
    /// first, it stops with the end marker as the lookahead.
    fn skip_to_semicolon(&mut self)
        requires
            old(self).wf(),
        ensures
            old(self).moved_to(final(self)),
            final(self).index() == skip_end(old(self).tokens(), old(self).index()),
    {
        proof {
            self.lemma_exhausted();
        }
        while !self.peek_token_is(&Token::Semicolon) && !(self.peek_token_is(&Token::EOF) && (
            self.overrun || self.lexer.at_end()))
            invariant
                old(self).moved_to(self),
                self.index() >= old(self).index(),
                (self.overrun || self.lexer.cursor() >= self.lexer.bytes().len())
                    <==> self.index() + 2 >= self.tokens().len(),
                skip_end(self.tokens(), self.index()) == skip_end(
                    old(self).tokens(),
                    old(self).index(),
                ),
            decreases remaining(self.tokens(), self.index()),
        {
            self.next_token();
            proof {
                self.lemma_exhausted();
            }
        }
    }

    /// Parses a `let` statement; the current token is its keyword.
    fn parse_let_statement(&mut self) -> (result: Result<Statement, ParserError>)
        requires
            old(self).wf(),
        ensures
            old(self).moved_to(final(self)),
            final(self).index() == let_statement(old(self).tokens(), old(self).index()).at,
            statement_outcome(result) == let_statement(
                old(self).tokens(),
                old(self).index(),
            ).result,
    {
        proof {
            reveal_strlit("_");
        }
        match self.expect_peek(Token::Ident("_".to_owned())) {
            Ok(()) => {},
            Err(e) => {
                return Err(e);
            },
        }
        let name = match self.parse_indent() {
            Some(name) => name,
            None => {
                // Not reached: `expect_peek` has moved onto an identifier.
                proof {
                    assert(false);
                }
                return Err(ParserError::ExpectExpression(self.current_token.to_string()));
            },
        };
        match self.expect_peek(Token::Assign) {
            Ok(()) => {},
            Err(e) => {
                return Err(e);
            },
        }
        self.next_token();
        let literal = match self.parse_expression(Precedence::Lowest) {
            Ok(e) => e,
            Err(e) => {
                return Err(e);
            },
        };
        self.skip_to_semicolon();
        Ok(Statement::Let(name, literal))
    }

    /// Parses a `return` statement; the current token is its keyword.
    fn parse_return_statement(&mut self) -> (result: Result<Statement, ParserError>)
        requires
            old(self).wf(),
        ensures
            old(self).moved_to(final(self)),
            final(self).index() == return_statement(old(self).tokens(), old(self).index()).at,
            statement_outcome(result) == return_statement(
                old(self).tokens(),
                old(self).index(),
            ).result,
    {
        self.next_token();
        let literal = match self.parse_expression(Precedence::Lowest) {
            Ok(e) => e,
            Err(e) => {
                return Err(e);
            },
        };
        self.skip_to_semicolon();
        Ok(Statement::Return(literal))
    }

    /// Parses an expression statement and the semicolon after it, if there
    /// is one.
    fn parse_expression_statement(&mut self) -> (result: Result<Statement, ParserError>)
        requires
            old(self).wf(),
        ensures
            old(self).moved_to(final(self)),
            final(self).index() == expression_statement(
                old(self).tokens(),
                old(self).index(),
            ).at,
            statement_outcome(result) == expression_statement(
                old(self).tokens(),
                old(self).index(),
            ).result,
    {
        let expr = match self.parse_expression(Precedence::Lowest) {
            Ok(e) => e,
            Err(e) => {
                return Err(e);
            },
        };
        if self.peek_token_is(&Token::Semicolon) {
            self.next_token();
        }
        Ok(Statement::Expr(expr))
    }

    /// Parses the statement that starts at the current token: a `let`
    /// statement, a `return` statement, or else an expression statement.
    pub fn parse_statement(&mut self) -> (result: Result<Statement, ParserError>)
        requires
            old(self).wf(),
        ensures
            old(self).moved_to(final(self)),
            final(self).index() == statement(old(self).tokens(), old(self).index()).at,
            statement_outcome(result) == statement(old(self).tokens(), old(self).index()).result,
    {
        match self.current_token {
            Token::Let => self.parse_let_statement(),
            Token::Return => self.parse_return_statement(),
            _ => self.parse_expression_statement(),
        }
    }

    /// Parses statements up to the first end marker. A statement that fails
    /// adds its failure to those recorded, and parsing goes on one token
    /// after the place of the failure. The result is the program if no
    /// failure is recorded at the end, and else every failure recorded.
    ///
    /// Where the parser has come to a literal that cannot be represented,
    /// which `overran` tells afterwards, the result is that of the text
    /// before the literal.
    pub fn parse_program(&mut self) -> (result: Result<Program, ParserErrors>)
        requires
            old(self).wf(),
        ensures
            final(self).wf(),
            final(self).tokens() == old(self).tokens(),
            final(self).truncated() == old(self).truncated(),
            final(self).index() == collect(old(self).tokens(), old(self).index()).end,
            final(self).errors() == old(self).errors() + collect(
                old(self).tokens(),
                old(self).index(),
            ).errors,
            program_outcome(result) == program_result(
                old(self).errors(),
                collect(old(self).tokens(), old(self).index()),
            ),
    {
        let mut program = Program::default();
        let ghost goal = collect(old(self).tokens(), old(self).index());
        while self.current_token != Token::EOF
            invariant
                self.wf(),
                self.tokens() == old(self).tokens(),
                self.truncated() == old(self).truncated(),
                goal == collect(old(self).tokens(), old(self).index()),
                program@ + collect(self.tokens(), self.index()).statements == goal.statements,
                self.errors() + collect(self.tokens(), self.index()).errors == old(
                    self,
                ).errors() + goal.errors,
                collect(self.tokens(), self.index()).end == goal.end,
            decreases remaining(self.tokens(), self.index()),
        {
            let ghost before = program@;
            let ghost errors_before = self.errors();
            let ghost at = self.index();
            proof {
                lemma_statement_advances(self.tokens(), self.index());
            }
            match self.parse_statement() {
                Ok(statement) => {
                    program.statements.push(statement);
                    assert(program@ =~= before + seq![statement@]);
                },
                Err(e) => {
                    self.errors.0.push(e);
                    assert(self.errors() =~= errors_before + seq![e@]);
                },
            }
            self.next_token();
            proof {
                let rest = collect(self.tokens(), self.index());
                let all = collect(self.tokens(), at);
                assert(program@ + rest.statements =~= before + all.statements);
                assert(self.errors() + rest.errors =~= errors_before + all.errors);
            }
        }
        assert(program@ + Seq::<StatementView>::empty() =~= program@);
        assert(self.errors() + Seq::<ParserErrorView>::empty() =~= self.errors());
        if self.errors.0.len() > 0 {
            return Err(self.errors.clone());
        }
        Ok(program)
    }
}

/// Parses `input` as a program with a new parser on a new tokenizer. The
/// result is `None` where the parser comes to an integer literal that
/// exceeds the largest 32-bit signed value; a literal that it never reads
/// does no harm. The text must be shorter than the largest `usize`.
pub fn parse(input: &str) -> (result: Option<Result<Program, ParserErrors>>)
    requires
        encode_utf8(input@).len() < usize::MAX,
    ensures
        result is None <==> overruns(input@),
        result matches Some(outcome) ==> program_outcome(outcome) == parse_text(input@),
{
    let lexer = Lexer::new(input);
    let mut parser = Parser::new(lexer);
    let outcome = parser.parse_program();
    if parser.overran() {
        return None;
    }
    Some(outcome)
}

} // verus!
