//! The binding strengths of the operators.

use crate::token::{Token, TokenView};
use vstd::prelude::*;
use vstd::std_specs::convert::FromSpecImpl;

verus! {

/// A binding strength. The levels are listed from the weakest to the
/// strongest.
#[derive(PartialOrd, PartialEq, Eq, Structural, Debug, Clone, Copy)]
pub enum Precedence {
    Lowest,
    /// `==` and `!=`
    Equals,
    /// `<` and `>`
    LessGreater,
    /// `+` and `-`
    Sum,
    /// `*` and `/`
    Product,
    /// a prefix `-` or `!`
    Prefix,
    /// a call
    Call,
}

impl Precedence {
    /// The place of the level in the order, from 0 for the weakest.
    pub open spec fn rank(self) -> int {
        match self {
            Precedence::Lowest => 0,
            Precedence::Equals => 1,
            Precedence::LessGreater => 2,
            Precedence::Sum => 3,
            Precedence::Product => 4,
            Precedence::Prefix => 5,
            Precedence::Call => 6,
        }
    }

    /// The place of the level in the order, from 0 for the weakest.
    pub fn level(&self) -> (n: u8)
        ensures
            n == self.rank(),
    {
        match self {
            Precedence::Lowest => 0,
            Precedence::Equals => 1,
            Precedence::LessGreater => 2,
            Precedence::Sum => 3,
            Precedence::Product => 4,
            Precedence::Prefix => 5,
            Precedence::Call => 6,
        }
    }

    /// Whether this level binds strictly weaker than `other`.
    pub fn lower_than(&self, other: &Precedence) -> (yes: bool)
        ensures
            yes == (self.rank() < other.rank()),
    {
        self.level() < other.level()
    }
}

/// The binding strength of a token as an infix operator; `Lowest` for every
/// token that is none.
pub open spec fn precedence_of(token: TokenView) -> Precedence {
    match token {
        TokenView::Eq => Precedence::Equals,
        TokenView::Neq => Precedence::Equals,
        TokenView::Lt => Precedence::LessGreater,
        TokenView::Gt => Precedence::LessGreater,
        TokenView::Plus => Precedence::Sum,
        TokenView::Minus => Precedence::Sum,
        TokenView::Slash => Precedence::Product,
        TokenView::Asterisk => Precedence::Product,
        _ => Precedence::Lowest,
    }
}

/// The eight infix operators: the tokens that bind stronger than `Lowest`.
pub open spec fn is_infix(token: TokenView) -> bool {
    precedence_of(token) != Precedence::Lowest
}

/// The levels are totally ordered by their rank, and no two share one.
pub proof fn lemma_rank_is_injective(a: Precedence, b: Precedence)
    ensures
        a.rank() == b.rank() <==> a == b,
        0 <= a.rank() <= 6,
{
}

impl From<&Token> for Precedence {
    fn from(token: &Token) -> (precedence: Precedence) {
        match token {
            Token::Eq => Precedence::Equals,
            Token::Neq => Precedence::Equals,
            Token::Lt => Precedence::LessGreater,
            Token::Gt => Precedence::LessGreater,
            Token::Plus => Precedence::Sum,
            Token::Minus => Precedence::Sum,
            Token::Slash => Precedence::Product,
            Token::Asterisk => Precedence::Product,
            _ => Precedence::Lowest,
        }
    }
}

impl FromSpecImpl<&Token> for Precedence {
    open spec fn obeys_from_spec() -> bool {
        true
    }

    open spec fn from_spec(token: &Token) -> Precedence {
        precedence_of(token@)
    }
}

} // verus!
