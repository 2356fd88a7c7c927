//! The abstract syntax tree: programs, statements, expressions, identifiers
//! and operators, each with its canonical text.

use crate::decimal::{i32_to_string, int_text};
use crate::token::{Token, TokenView};
use vstd::prelude::*;
use vstd::string::*;

verus! {

/// A prefix or infix operator.
#[derive(Debug, Clone, Copy, PartialEq, Eq, Structural)]
pub enum Operator {
    Assign,
    Plus,
    Minus,
    Bang,
    Asterisk,
    Slash,
    Lt,
    Gt,
    Eq,
    Neq,
}

impl Operator {
    /// The symbol that writes the operator.
    pub open spec fn text(self) -> Seq<char> {
        match self {
            Operator::Assign => "="@,
            Operator::Plus => "+"@,
            Operator::Minus => "-"@,
            Operator::Bang => "!"@,
            Operator::Asterisk => "*"@,
            Operator::Slash => "/"@,
            Operator::Lt => "<"@,
            Operator::Gt => ">"@,
            Operator::Eq => "=="@,
            Operator::Neq => "!="@,
        }
    }

    /// The symbol that writes the operator.
    pub fn to_string(&self) -> (s: String)
        ensures
            s@ == self.text(),
    {
        let symbol = match self {
            Operator::Assign => "=",
            Operator::Plus => "+",
            Operator::Minus => "-",
            Operator::Bang => "!",
            Operator::Asterisk => "*",
            Operator::Slash => "/",
            Operator::Lt => "<",
            Operator::Gt => ">",
            Operator::Eq => "==",
            Operator::Neq => "!=",
        };
        symbol.to_owned()
    }
}

/// The operator that a token stands for, if it is one of the ten operator
/// tokens.
pub open spec fn operator_of(token: TokenView) -> Option<Operator> {
    match token {
        TokenView::Assign => Some(Operator::Assign),
        TokenView::Plus => Some(Operator::Plus),
        TokenView::Minus => Some(Operator::Minus),
        TokenView::Bang => Some(Operator::Bang),
        TokenView::Asterisk => Some(Operator::Asterisk),
        TokenView::Slash => Some(Operator::Slash),
        TokenView::Lt => Some(Operator::Lt),
        TokenView::Gt => Some(Operator::Gt),
        TokenView::Eq => Some(Operator::Eq),
        TokenView::Neq => Some(Operator::Neq),
        _ => None,
    }
}

/// A name: the target of a binding, or a reference to a variable.
#[derive(Debug, PartialEq)]
pub struct Identifier(pub String);

impl Clone for Identifier {
    fn clone(&self) -> (copy: Self)
        ensures
            copy == *self,
    {
        Identifier(self.0.clone())
    }
}

impl View for Identifier {
    type V = Seq<char>;

    open spec fn view(&self) -> Seq<char> {
        self.0@
    }
}

impl Identifier {
    /// The name itself.
    pub fn to_string(&self) -> (s: String)
        ensures
            s@ == self@,
    {
        self.0.clone()
    }
}

/// An expression: a tree that owns its operands.
#[derive(Debug, PartialEq)]
pub enum Expression {
    Ident(Identifier),
    IntegerLiteral(i32),
    Prefix { token: Token, operator: Operator, right: Box<Expression> },
    Infix { token: Token, left: Box<Expression>, operator: Operator, right: Box<Expression> },
}

/// The mathematical value of an [`Expression`].
pub enum ExpressionView {
    Ident(Seq<char>),
    IntegerLiteral(i32),
    Prefix { token: TokenView, operator: Operator, right: Box<ExpressionView> },
    Infix {
        token: TokenView,
        left: Box<ExpressionView>,
        operator: Operator,
        right: Box<ExpressionView>,
    },
}

impl View for Expression {
    type V = ExpressionView;

    open spec fn view(&self) -> ExpressionView
        decreases self,
    {
        match self {
            Expression::Ident(name) => ExpressionView::Ident(name@),
            Expression::IntegerLiteral(value) => ExpressionView::IntegerLiteral(*value),
            Expression::Prefix { token, operator, right } => ExpressionView::Prefix {
                token: token@,
                operator: *operator,
                right: Box::new((**right).view()),
            },
            Expression::Infix { token, left, operator, right } => ExpressionView::Infix {
                token: token@,
                left: Box::new((**left).view()),
                operator: *operator,
                right: Box::new((**right).view()),
            },
        }
    }
}

impl ExpressionView {
    /// The canonical text: a name or a decimal literal as it is, an operator
    /// application in parentheses, with a space on either side of an infix
    /// operator.
    pub open spec fn text(self) -> Seq<char>
        decreases self,
    {
        match self {
            ExpressionView::Ident(name) => name,
            ExpressionView::IntegerLiteral(value) => int_text(value as int),
            ExpressionView::Prefix { operator, right, .. } => "("@ + operator.text() + right.text()
                + ")"@,
            ExpressionView::Infix { left, operator, right, .. } => "("@ + left.text() + " "@
                + operator.text() + " "@ + right.text() + ")"@,
        }
    }

    /// Every operator in the tree is the one that its token stands for.
    pub open spec fn wf(self) -> bool
        decreases self,
    {
        match self {
            ExpressionView::Ident(_) => true,
            ExpressionView::IntegerLiteral(_) => true,
            ExpressionView::Prefix { token, operator, right } => operator_of(token) == Some(
                operator,
            ) && right.wf(),
            ExpressionView::Infix { token, left, operator, right } => operator_of(token) == Some(
                operator,
            ) && left.wf() && right.wf(),
        }
    }
}

impl Clone for Expression {
    fn clone(&self) -> (copy: Self)
        ensures
            copy == *self,
        decreases self,
    {
        match self {
            Expression::Ident(name) => Expression::Ident(name.clone()),
            Expression::IntegerLiteral(value) => Expression::IntegerLiteral(*value),
            Expression::Prefix { token, operator, right } => Expression::Prefix {
                token: token.clone(),
                operator: *operator,
                right: Box::new((&**right).clone()),
            },
            Expression::Infix { token, left, operator, right } => Expression::Infix {
                token: token.clone(),
                left: Box::new((&**left).clone()),
                operator: *operator,
                right: Box::new((&**right).clone()),
            },
        }
    }
}

impl Expression {
    /// The canonical, fully parenthesized text of the expression.
    pub fn to_string(&self) -> (s: String)
        ensures
            s@ == self@.text(),
        decreases self,
    {
        match self {
            Expression::Ident(name) => name.to_string(),
            Expression::IntegerLiteral(value) => i32_to_string(*value),
            Expression::Prefix { operator, right, .. } => {
                let mut s = "(".to_owned();
                s.append(operator.to_string().as_str());
                s.append(right.to_string().as_str());
                s.append(")");
                s
            },
            Expression::Infix { left, operator, right, .. } => {
                let mut s = "(".to_owned();
                s.append(left.to_string().as_str());
                s.append(" ");
                s.append(operator.to_string().as_str());
                s.append(" ");
                s.append(right.to_string().as_str());
                s.append(")");
                s
            },
        }
    }
}

/// A statement: a binding, a return, or a bare expression.
#[derive(Debug, PartialEq)]
pub enum Statement {
    Let(Identifier, Expression),
    Return(Expression),
    Expr(Expression),
}

/// The mathematical value of a [`Statement`].
pub enum StatementView {
    Let(Seq<char>, ExpressionView),
    Return(ExpressionView),
    Expr(ExpressionView),
}

impl View for Statement {
    type V = StatementView;

    open spec fn view(&self) -> StatementView {
        match self {
            Statement::Let(name, value) => StatementView::Let(name@, value@),
            Statement::Return(value) => StatementView::Return(value@),
            Statement::Expr(value) => StatementView::Expr(value@),
        }
    }
}

impl StatementView {
    /// The canonical text: `let <name> = <expression>;`, `return
    /// <expression>;`, or the bare expression with nothing after it.
    pub open spec fn text(self) -> Seq<char> {
        match self {
            StatementView::Let(name, value) => "let "@ + name + " = "@ + value.text() + ";"@,
            StatementView::Return(value) => "return "@ + value.text() + ";"@,
            StatementView::Expr(value) => value.text(),
        }
    }

    /// The expression that the statement holds.
    pub open spec fn expression(self) -> ExpressionView {
        match self {
            StatementView::Let(_, value) => value,
            StatementView::Return(value) => value,
            StatementView::Expr(value) => value,
        }
    }
}

impl Clone for Statement {
    fn clone(&self) -> (copy: Self)
        ensures
            copy == *self,
    {
        match self {
            Statement::Let(name, value) => Statement::Let(name.clone(), value.clone()),
            Statement::Return(value) => Statement::Return(value.clone()),
            Statement::Expr(value) => Statement::Expr(value.clone()),
        }
    }
}

impl Statement {
    /// The canonical text of the statement.
    pub fn to_string(&self) -> (s: String)
        ensures
            s@ == self@.text(),
    {
        match self {
            Statement::Let(name, value) => {
                let mut s = "let ".to_owned();
                s.append(name.to_string().as_str());
                s.append(" = ");
                s.append(value.to_string().as_str());
                s.append(";");
                s
            },
            Statement::Return(value) => {
                let mut s = "return ".to_owned();
                s.append(value.to_string().as_str());
                s.append(";");
                s
            },
            Statement::Expr(value) => value.to_string(),
        }
    }
}

/// The texts of a sequence of statements, one after the other with nothing
/// between them.
pub open spec fn statements_text(statements: Seq<StatementView>) -> Seq<char>
    decreases statements.len(),
{
    if statements.len() == 0 {
        Seq::empty()
    } else {
        statements_text(statements.drop_last()) + statements.last().text()
    }
}

/// A program: its statements in source order.
#[derive(Debug, PartialEq)]
pub struct Program {
    pub statements: Vec<Statement>,
}

impl View for Program {
    type V = Seq<StatementView>;

    open spec fn view(&self) -> Seq<StatementView> {
        Seq::new(self.statements@.len(), |i: int| self.statements@[i]@)
    }
}

impl Clone for Program {
    fn clone(&self) -> (copy: Self)
        ensures
            copy.statements@ == self.statements@,
    {
        let mut statements: Vec<Statement> = Vec::new();
        let mut i: usize = 0;
        while i < self.statements.len()
            invariant
                i <= self.statements@.len(),
                statements@ == self.statements@.subrange(0, i as int),
            decreases self.statements@.len() - i,
        {
            statements.push(self.statements[i].clone());
            assert(statements@ =~= self.statements@.subrange(0, i + 1));
            i += 1;
        }
        assert(statements@ =~= self.statements@);
        Program { statements }
    }
}

impl Default for Program {
    /// The program without statements.
    fn default() -> (program: Program)
        ensures
            program@ == Seq::<StatementView>::empty(),
    {
        let program = Program { statements: Vec::new() };
        assert(program@ =~= Seq::<StatementView>::empty());
        program
    }
}

impl Program {
    /// The canonical text of the program: the texts of its statements in
    /// order, with no separator.
    pub fn to_string(&self) -> (s: String)
        ensures
            s@ == statements_text(self@),
    {
        let mut s = String::new();
        let mut i: usize = 0;
        while i < self.statements.len()
            invariant
                i <= self.statements@.len(),
                s@ == statements_text(self@.subrange(0, i as int)),
            decreases self.statements@.len() - i,
        {
            s.append(self.statements[i].to_string().as_str());
            proof {
                let longer = self@.subrange(0, i + 1);
                assert(longer.drop_last() =~= self@.subrange(0, i as int));
                assert(longer.last() == self.statements@[i as int]@);
            }
            i += 1;
        }
        assert(self@.subrange(0, i as int) =~= self@);
        s
    }
}

} // verus!
