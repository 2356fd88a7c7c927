//! The lexical units of the language and their display form.

use crate::decimal::{i32_to_string, int_text};
use vstd::prelude::*;
use vstd::std_specs::cmp::PartialEqSpecImpl;

verus! {

/// A lexical unit: an end or error marker, an identifier, an integer
/// literal, or one of the fixed operators, delimiters and keywords.
#[derive(Debug)]
pub enum Token {
    Illegal,
    EOF,
    Ident(String),
    Int(i32),
    Assign,
    Plus,
    Minus,
    Bang,
    Asterisk,
    Slash,
    Lt,
    Gt,
    Eq,
    Neq,
    Comma,
    Semicolon,
    Lparen,
    Rparen,
    Lbrace,
    Rbrace,
    Function,
    Let,
    True,
    False,
    If,
    Else,
    Return,
}

/// The mathematical value of a [`Token`]: the same variants, an identifier
/// carrying its characters.
pub enum TokenView {
    Illegal,
    EOF,
    Ident(Seq<char>),
    Int(i32),
    Assign,
    Plus,
    Minus,
    Bang,
    Asterisk,
    Slash,
    Lt,
    Gt,
    Eq,
    Neq,
    Comma,
    Semicolon,
    Lparen,
    Rparen,
    Lbrace,
    Rbrace,
    Function,
    Let,
    True,
    False,
    If,
    Else,
    Return,
}

impl View for Token {
    type V = TokenView;

    open spec fn view(&self) -> TokenView {
        match self {
            Token::Illegal => TokenView::Illegal,
            Token::EOF => TokenView::EOF,
            Token::Ident(name) => TokenView::Ident(name@),
            Token::Int(value) => TokenView::Int(*value),
            Token::Assign => TokenView::Assign,
            Token::Plus => TokenView::Plus,
            Token::Minus => TokenView::Minus,
            Token::Bang => TokenView::Bang,
            Token::Asterisk => TokenView::Asterisk,
            Token::Slash => TokenView::Slash,
            Token::Lt => TokenView::Lt,
            Token::Gt => TokenView::Gt,
            Token::Eq => TokenView::Eq,
            Token::Neq => TokenView::Neq,
            Token::Comma => TokenView::Comma,
            Token::Semicolon => TokenView::Semicolon,
            Token::Lparen => TokenView::Lparen,
            Token::Rparen => TokenView::Rparen,
            Token::Lbrace => TokenView::Lbrace,
            Token::Rbrace => TokenView::Rbrace,
            Token::Function => TokenView::Function,
            Token::Let => TokenView::Let,
            Token::True => TokenView::True,
            Token::False => TokenView::False,
            Token::If => TokenView::If,
            Token::Else => TokenView::Else,
            Token::Return => TokenView::Return,
        }
    }
}

impl TokenView {
    /// The display form of a token: an identifier's name, a literal's
    /// decimal notation, the symbol of an operator or delimiter, `fn` for the
    /// function keyword, and the variant's name for every other token.
    pub open spec fn text(self) -> Seq<char> {
        match self {
            TokenView::Ident(name) => name,
            TokenView::Int(value) => int_text(value as int),
            TokenView::Minus => "-"@,
            TokenView::Plus => "+"@,
            TokenView::Bang => "!"@,
            TokenView::Asterisk => "*"@,
            TokenView::Slash => "/"@,
            TokenView::Gt => ">"@,
            TokenView::Lt => "<"@,
            TokenView::Eq => "=="@,
            TokenView::Neq => "!="@,
            TokenView::Semicolon => ";"@,
            TokenView::Assign => "="@,
            TokenView::Function => "fn"@,
            TokenView::Lparen => "("@,
            TokenView::Rparen => ")"@,
            TokenView::Lbrace => "{"@,
            TokenView::Rbrace => "}"@,
            TokenView::Comma => ","@,
            TokenView::Illegal => "Illegal"@,
            TokenView::EOF => "EOF"@,
            TokenView::Let => "Let"@,
            TokenView::True => "True"@,
            TokenView::False => "False"@,
            TokenView::If => "If"@,
            TokenView::Else => "Else"@,
            TokenView::Return => "Return"@,
        }
    }

    /// Whether two tokens are of the same variant, whatever they carry.
    pub open spec fn same_variant(self, other: TokenView) -> bool {
        match self {
            TokenView::Ident(_) => other is Ident,
            TokenView::Int(_) => other is Int,
            _ => self == other,
        }
    }
}

impl Token {
    /// The display form of the token.
    pub fn to_string(&self) -> (s: String)
        ensures
            s@ == self@.text(),
    {
        match self {
            Token::Ident(name) => name.clone(),
            Token::Int(value) => i32_to_string(*value),
            Token::Minus => "-".to_owned(),
            Token::Plus => "+".to_owned(),
            Token::Bang => "!".to_owned(),
            Token::Asterisk => "*".to_owned(),
            Token::Slash => "/".to_owned(),
            Token::Gt => ">".to_owned(),
            Token::Lt => "<".to_owned(),
            Token::Eq => "==".to_owned(),
            Token::Neq => "!=".to_owned(),
            Token::Semicolon => ";".to_owned(),
            Token::Assign => "=".to_owned(),
            Token::Function => "fn".to_owned(),
            Token::Lparen => "(".to_owned(),
            Token::Rparen => ")".to_owned(),
            Token::Lbrace => "{".to_owned(),
            Token::Rbrace => "}".to_owned(),
            Token::Comma => ",".to_owned(),
            Token::Illegal => "Illegal".to_owned(),
            Token::EOF => "EOF".to_owned(),
            Token::Let => "Let".to_owned(),
            Token::True => "True".to_owned(),
            Token::False => "False".to_owned(),
            Token::If => "If".to_owned(),
            Token::Else => "Else".to_owned(),
            Token::Return => "Return".to_owned(),
        }
    }
}

impl Clone for Token {
    fn clone(&self) -> (copy: Self)
        ensures
            copy == *self,
    {
        match self {
            Token::Illegal => Token::Illegal,
            Token::EOF => Token::EOF,
            Token::Ident(name) => Token::Ident(name.clone()),
            Token::Int(value) => Token::Int(*value),
            Token::Assign => Token::Assign,
            Token::Plus => Token::Plus,
            Token::Minus => Token::Minus,
            Token::Bang => Token::Bang,
            Token::Asterisk => Token::Asterisk,
            Token::Slash => Token::Slash,
            Token::Lt => Token::Lt,
            Token::Gt => Token::Gt,
            Token::Eq => Token::Eq,
            Token::Neq => Token::Neq,
            Token::Comma => Token::Comma,
            Token::Semicolon => Token::Semicolon,
            Token::Lparen => Token::Lparen,
            Token::Rparen => Token::Rparen,
            Token::Lbrace => Token::Lbrace,
            Token::Rbrace => Token::Rbrace,
            Token::Function => Token::Function,
            Token::Let => Token::Let,
            Token::True => Token::True,
            Token::False => Token::False,
            Token::If => Token::If,
            Token::Else => Token::Else,
            Token::Return => Token::Return,
        }
    }
}

impl PartialEq for Token {
    /// Tokens are equal when they are of the same variant and carry the same
    /// name or value.
    fn eq(&self, other: &Token) -> (same: bool) {
        match (self, other) {
            (Token::Illegal, Token::Illegal) => true,
            (Token::EOF, Token::EOF) => true,
            (Token::Ident(a), Token::Ident(b)) => *a == *b,
            (Token::Int(a), Token::Int(b)) => *a == *b,
            (Token::Assign, Token::Assign) => true,
            (Token::Plus, Token::Plus) => true,
            (Token::Minus, Token::Minus) => true,
            (Token::Bang, Token::Bang) => true,
            (Token::Asterisk, Token::Asterisk) => true,
            (Token::Slash, Token::Slash) => true,
            (Token::Lt, Token::Lt) => true,
            (Token::Gt, Token::Gt) => true,
            (Token::Eq, Token::Eq) => true,
            (Token::Neq, Token::Neq) => true,
            (Token::Comma, Token::Comma) => true,
            (Token::Semicolon, Token::Semicolon) => true,
            (Token::Lparen, Token::Lparen) => true,
            (Token::Rparen, Token::Rparen) => true,
            (Token::Lbrace, Token::Lbrace) => true,
            (Token::Rbrace, Token::Rbrace) => true,
            (Token::Function, Token::Function) => true,
            (Token::Let, Token::Let) => true,
            (Token::True, Token::True) => true,
            (Token::False, Token::False) => true,
            (Token::If, Token::If) => true,
            (Token::Else, Token::Else) => true,
            (Token::Return, Token::Return) => true,
            _ => false,
        }
    }
}

impl PartialEqSpecImpl for Token {
    open spec fn obeys_eq_spec() -> bool {
        true
    }

    open spec fn eq_spec(&self, other: &Token) -> bool {
        self@ == other@
    }
}

} // verus!
