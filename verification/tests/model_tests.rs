use monkey::ast::{Expression, Identifier, Operator, Program, Statement};
use monkey::decimal::i32_to_string;
use monkey::precedence::Precedence;
use monkey::token::Token;

#[test]
fn integers_are_written_in_decimal() {
    assert_eq!(i32_to_string(0), "0");
    assert_eq!(i32_to_string(7), "7");
    assert_eq!(i32_to_string(10), "10");
    assert_eq!(i32_to_string(838383), "838383");
    assert_eq!(i32_to_string(-15), "-15");
    assert_eq!(i32_to_string(i32::MAX), "2147483647");
    assert_eq!(i32_to_string(i32::MIN), "-2147483648");
    for v in [-1000, -1, 1, 9, 99, 100, 101, 65535] {
        assert_eq!(i32_to_string(v), format!("{}", v));
    }
}

#[test]
fn tokens_have_their_display_form() {
    let cases = vec![
        (Token::Ident("foo".to_string()), "foo"),
        (Token::Int(42), "42"),
        (Token::Int(-3), "-3"),
        (Token::Minus, "-"),
        (Token::Plus, "+"),
        (Token::Bang, "!"),
        (Token::Asterisk, "*"),
        (Token::Slash, "/"),
        (Token::Gt, ">"),
        (Token::Lt, "<"),
        (Token::Eq, "=="),
        (Token::Neq, "!="),
        (Token::Semicolon, ";"),
        (Token::Assign, "="),
        (Token::Function, "fn"),
        (Token::Lparen, "("),
        (Token::Rparen, ")"),
        (Token::Lbrace, "{"),
        (Token::Rbrace, "}"),
        (Token::Comma, ","),
        (Token::Illegal, "Illegal"),
        (Token::EOF, "EOF"),
        (Token::Let, "Let"),
        (Token::True, "True"),
        (Token::False, "False"),
        (Token::If, "If"),
        (Token::Else, "Else"),
        (Token::Return, "Return"),
    ];
    for (token, text) in cases {
        assert_eq!(token.to_string(), text);
    }
}

#[test]
fn tokens_are_equal_by_variant_and_payload() {
    assert_eq!(Token::Ident("a".to_string()), Token::Ident("a".to_string()));
    assert_ne!(Token::Ident("a".to_string()), Token::Ident("b".to_string()));
    assert_eq!(Token::Int(1), Token::Int(1));
    assert_ne!(Token::Int(1), Token::Int(2));
    assert_ne!(Token::Ident("+".to_string()), Token::Plus);
    assert_ne!(Token::Eq, Token::Assign);
    let token = Token::Ident("copy".to_string());
    assert_eq!(token.clone(), token);
}

#[test]
fn operators_have_their_symbol() {
    let cases = vec![
        (Operator::Assign, "="),
        (Operator::Plus, "+"),
        (Operator::Minus, "-"),
        (Operator::Bang, "!"),
        (Operator::Asterisk, "*"),
        (Operator::Slash, "/"),
        (Operator::Lt, "<"),
        (Operator::Gt, ">"),
        (Operator::Eq, "=="),
        (Operator::Neq, "!="),
    ];
    for (operator, text) in cases {
        assert_eq!(operator.to_string(), text);
    }
}

#[test]
fn precedence_levels_are_strictly_ordered() {
    let levels = [
        Precedence::Lowest,
        Precedence::Equals,
        Precedence::LessGreater,
        Precedence::Sum,
        Precedence::Product,
        Precedence::Prefix,
        Precedence::Call,
    ];
    for (i, a) in levels.iter().enumerate() {
        assert_eq!(a.level() as usize, i);
        for (j, b) in levels.iter().enumerate() {
            assert_eq!(a.lower_than(b), i < j);
            assert_eq!(a < b, i < j);
            assert_eq!(a == b, i == j);
        }
    }
}

#[test]
fn tokens_map_to_their_precedence() {
    assert_eq!(Precedence::from(&Token::Eq), Precedence::Equals);
    assert_eq!(Precedence::from(&Token::Neq), Precedence::Equals);
    assert_eq!(Precedence::from(&Token::Lt), Precedence::LessGreater);
    assert_eq!(Precedence::from(&Token::Gt), Precedence::LessGreater);
    assert_eq!(Precedence::from(&Token::Plus), Precedence::Sum);
    assert_eq!(Precedence::from(&Token::Minus), Precedence::Sum);
    assert_eq!(Precedence::from(&Token::Slash), Precedence::Product);
    assert_eq!(Precedence::from(&Token::Asterisk), Precedence::Product);
    assert_eq!(Precedence::from(&Token::Bang), Precedence::Lowest);
    assert_eq!(Precedence::from(&Token::Assign), Precedence::Lowest);
    assert_eq!(Precedence::from(&Token::Semicolon), Precedence::Lowest);
    assert_eq!(Precedence::from(&Token::Lparen), Precedence::Lowest);
    assert_eq!(Precedence::from(&Token::Int(1)), Precedence::Lowest);
    assert_eq!(Precedence::from(&Token::EOF), Precedence::Lowest);
}

#[test]
fn statements_render_in_canonical_form() {
    let a = || Expression::Ident(Identifier("a".to_string()));
    let sum = Expression::Infix {
        token: Token::Plus,
        left: Box::new(a()),
        operator: Operator::Plus,
        right: Box::new(Expression::IntegerLiteral(2)),
    };
    let negated = Expression::Prefix {
        token: Token::Minus,
        operator: Operator::Minus,
        right: Box::new(a()),
    };
    assert_eq!(a().to_string(), "a");
    assert_eq!(Expression::IntegerLiteral(-7).to_string(), "-7");
    assert_eq!(sum.to_string(), "(a + 2)");
    assert_eq!(negated.to_string(), "(-a)");
    let product = Expression::Infix {
        token: Token::Asterisk,
        left: Box::new(sum.clone()),
        operator: Operator::Asterisk,
        right: Box::new(negated.clone()),
    };
    assert_eq!(product.to_string(), "((a + 2) * (-a))");
    assert_eq!(product.clone(), product);
    let binding = Statement::Let(Identifier("x".to_string()), sum.clone());
    assert_eq!(binding.to_string(), "let x = (a + 2);");
    let giving = Statement::Return(negated.clone());
    assert_eq!(giving.to_string(), "return (-a);");
    let bare = Statement::Expr(a());
    assert_eq!(bare.to_string(), "a");
    let program = Program {
        statements: vec![binding, giving, bare],
    };
    assert_eq!(program.to_string(), "let x = (a + 2);return (-a);a");
    assert_eq!(Program::default().statements.len(), 0);
    assert_eq!(Identifier("name".to_string()).to_string(), "name");
}
