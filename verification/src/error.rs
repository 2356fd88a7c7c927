//! What can go wrong while parsing.

use vstd::prelude::*;

verus! {

/// One failure of the parser. Each text is the display form of a token.
#[derive(Debug, PartialEq)]
pub enum ParserError {
    /// The lookahead token is not the expected one.
    ExpectToken { expected: String, found: String },
    /// No expression begins with the current token.
    ExpectExpression(String),
    /// The text of an integer literal is no 32-bit signed number.
    UnableToParseInteger(String),
    /// The token is not an operator.
    UnableToParseOperator(String),
}

/// The mathematical value of a [`ParserError`].
pub enum ParserErrorView {
    ExpectToken { expected: Seq<char>, found: Seq<char> },
    ExpectExpression(Seq<char>),
    UnableToParseInteger(Seq<char>),
    UnableToParseOperator(Seq<char>),
}

impl View for ParserError {
    type V = ParserErrorView;

    open spec fn view(&self) -> ParserErrorView {
        match self {
            ParserError::ExpectToken { expected, found } => ParserErrorView::ExpectToken {
                expected: expected@,
                found: found@,
            },
            ParserError::ExpectExpression(found) => ParserErrorView::ExpectExpression(found@),
            ParserError::UnableToParseInteger(text) => ParserErrorView::UnableToParseInteger(
                text@,
            ),
            ParserError::UnableToParseOperator(text) => ParserErrorView::UnableToParseOperator(
                text@,
            ),
        }
    }
}

impl Clone for ParserError {
    fn clone(&self) -> (copy: Self)
        ensures
            copy == *self,
    {
        match self {
            ParserError::ExpectToken { expected, found } => ParserError::ExpectToken {
                expected: expected.clone(),
                found: found.clone(),
            },
            ParserError::ExpectExpression(found) => ParserError::ExpectExpression(found.clone()),
            ParserError::UnableToParseInteger(text) => ParserError::UnableToParseInteger(
                text.clone(),
            ),
            ParserError::UnableToParseOperator(text) => ParserError::UnableToParseOperator(
                text.clone(),
            ),
        }
    }
}

/// The failures of one parse, in the order in which they were met.
#[derive(Debug, PartialEq)]
pub struct ParserErrors(pub Vec<ParserError>);

impl View for ParserErrors {
    type V = Seq<ParserErrorView>;

    open spec fn view(&self) -> Seq<ParserErrorView> {
        Seq::new(self.0@.len(), |i: int| self.0@[i]@)
    }
}

impl Clone for ParserErrors {
    fn clone(&self) -> (copy: Self)
        ensures
            copy@ == self@,
    {
        let mut errors: Vec<ParserError> = Vec::new();
        let mut i: usize = 0;
        while i < self.0.len()
            invariant
                i <= self.0@.len(),
                errors@.len() == i,
                forall|k: int| 0 <= k < i ==> errors@[k] == self.0@[k],
            decreases self.0@.len() - i,
        {
            errors.push(self.0[i].clone());
            i += 1;
        }
        let copy = ParserErrors(errors);
        assert(copy@ =~= self@);
        copy
    }
}

} // verus!
