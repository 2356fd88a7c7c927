use monkey::ast::{Expression, Identifier, Operator, Program, Statement};
use monkey::error::{ParserError, ParserErrors};
use monkey::lexer::Lexer;
use monkey::parser::{parse_to_operator, Parser};
use monkey::precedence::Precedence;
use monkey::token::Token;

fn parser_on(input: &str) -> Parser<'_> {
    Parser::new(Lexer::new(input))
}

fn parse(input: &str) -> Result<Program, ParserErrors> {
    monkey::parser::parse(input).expect("every literal that is read fits")
}

fn test_identifier(identifier: &Identifier, v: String) {
    assert_eq!(*identifier, Identifier(v));
}

fn test_integer_literal(il: &Expression, v: i32) {
    if let Expression::IntegerLiteral(int) = il {
        assert_eq!(int, &v);
    } else {
        panic!();
    }
}

fn test_operator(operator: &Operator, expect_operator: &str) {
    assert_eq!(operator.to_string(), expect_operator,);
}

fn test_print_errors(errors: ParserErrors) {
    errors.0.iter().for_each(|e| {
        println!("error! {:?}", e);
    });
}

fn ident(name: &str) -> Expression {
    Expression::Ident(Identifier(name.to_string()))
}

#[test]
fn parser_test_let_statement() {
    let i = "
		let x = 5;
		let y = 10;
		let foobar = 838383;
		";

    let input = i.to_string();

    let mut parser = parser_on(&input);
    let mut statements = Vec::new();
    while *parser.current_token() != Token::EOF {
        match parser.parse_statement() {
            Ok(statement) => statements.push(statement),
            Err(_msg) => {}
        }
        parser.next_token()
    }

    assert_eq!(
        vec![
            Statement::Let(Identifier(String::from("x")), Expression::IntegerLiteral(5)),
            Statement::Let(Identifier(String::from("y")), Expression::IntegerLiteral(10)),
            Statement::Let(
                Identifier(String::from("foobar")),
                Expression::IntegerLiteral(838383),
            ),
        ],
        statements,
    );

    let mut parser = parser_on(&input);
    let program = parser.parse_program();
    assert!(!parser.overran());
    assert_eq!(
        program,
        Err(ParserErrors(vec![
            ParserError::ExpectExpression(";".to_string()),
            ParserError::ExpectExpression(";".to_string()),
            ParserError::ExpectExpression(";".to_string()),
        ]))
    );
}

#[test]
fn test_let_statement() {
    let inputs = vec![
        ("let x = 5;", String::from("x"), 5),
        ("let y = 10;", String::from("y"), 10),
        ("let foobar = 838383;", String::from("foobar"), 838383),
    ];

    for (input, expect_ident_value, expect_literal_value) in inputs {
        match parse(input) {
            Err(errors) => test_print_errors(errors),
            Ok(program) => {
                assert!(program.statements.len() > 0);
                let target = program.statements.get(0);
                if let Some(Statement::Let(ident, exp)) = target {
                    test_identifier(ident, expect_ident_value);
                    test_integer_literal(exp, expect_literal_value);
                } else {
                    panic!();
                }
            }
        };
    }
}

#[test]
fn test_return_statement() {
    let inputs = vec![
        ("return 5;", 5),
        ("return 10;", 10),
        ("return 993322;", 993322),
    ];

    for (input, expect_literal_value) in inputs {
        match parse(input) {
            Err(errors) => test_print_errors(errors),
            Ok(program) => {
                assert!(program.statements.len() > 0);
                let target = program.statements.get(0);
                if let Some(Statement::Return(exp)) = target {
                    test_integer_literal(exp, expect_literal_value);
                } else {
                    panic!();
                }
            }
        };
    }
}

#[test]
fn test_identifier_expression() {
    let input = ("foobar;", "foobar".to_string());
    match parse(input.0) {
        Err(errors) => test_print_errors(errors),
        Ok(program) => {
            assert!(program.statements.len() > 0);
            let target = program.statements.get(0);
            if let Some(Statement::Expr(Expression::Ident(identifier))) = target {
                test_identifier(identifier, input.1);
            } else {
                panic!();
            }
        }
    };
}

#[test]
fn test_integer_literal_expression() {
    let input = ("5;", 5);
    match parse(input.0) {
        Err(errors) => test_print_errors(errors),
        Ok(program) => {
            assert!(program.statements.len() > 0);
            let target = program.statements.get(0);
            if let Some(Statement::Expr(expression)) = target {
                test_integer_literal(&expression, input.1);
            } else {
                panic!();
            }
        }
    };
}

#[test]
fn test_parsing_prefix_expressions() {
    let inputs = vec![("!5;", "!", 5), ("-15;", "-", 15)];

    for (input, prefix, expect_right_value) in inputs {
        match parse(input) {
            Err(errors) => test_print_errors(errors),
            Ok(program) => {
                assert!(program.statements.len() > 0);
                let target = program.statements.get(0);
                if let Some(Statement::Expr(Expression::Prefix {
                    operator,
                    right,
                    ..
                })) = target
                {
                    test_operator(operator, prefix);
                    test_integer_literal(&*right, expect_right_value);
                } else {
                    panic!();
                }
            }
        };
    }
}

#[test]
fn test_parsing_infix_expressions() {
    let inputs = vec![
        ("5 + 5;", 5, "+", 5),
        ("5 - 5;", 5, "-", 5),
        ("5 * 5;", 5, "*", 5),
        ("5 / 5;", 5, "/", 5),
        ("5 > 5;", 5, ">", 5),
        ("5 < 5;", 5, "<", 5),
        ("5 == 5;", 5, "==", 5),
        ("5 != 5;", 5, "!=", 5),
    ];

    for (input, expect_left_value, infix, expect_right_value) in inputs {
        match parse(input) {
            Err(errors) => test_print_errors(errors),
            Ok(program) => {
                assert!(program.statements.len() > 0);
                let target = program.statements.get(0);
                if let Some(Statement::Expr(Expression::Infix {
                    left,
                    operator,
                    right,
                    ..
                })) = target
                {
                    test_integer_literal(&*left, expect_left_value);
                    test_operator(operator, infix);
                    test_integer_literal(&*right, expect_right_value);
                } else {
                    panic!();
                }
            }
        };
    }
}

#[test]
fn test_operator_precedence_parsing() {
    let inputs = vec![
        ("-a * b", "((-a) * b)"),
        ("!-a", "(!(-a))"),
        ("a + b + c", "((a + b) + c)"),
        ("a + b - c", "((a + b) - c)"),
        ("a * b * c", "((a * b) * c)"),
        ("a * b / c", "((a * b) / c)"),
        ("a + b / c", "(a + (b / c))"),
        ("a + b * c + d / e - f", "(((a + (b * c)) + (d / e)) - f)"),
        ("3 + 4; -5 * 5", "(3 + 4)((-5) * 5)"),
        ("5 > 4 == 3 < 4", "((5 > 4) == (3 < 4))"),
        ("5 < 4 != 3 > 4", "((5 < 4) != (3 > 4))"),
        (
            "3 + 4 * 5 == 3 * 1 + 4 * 5",
            "((3 + (4 * 5)) == ((3 * 1) + (4 * 5)))",
        ),
    ];

    inputs
        .iter()
        .for_each(|(input, expected)| match parse(input) {
            Err(errors) => test_print_errors(errors),
            Ok(program) => {
                assert_eq!(&program.to_string(), expected);
            }
        });
}

#[test]
fn operator_expressions_parse_without_failure() {
    let inputs = vec![
        ("a - b - c", "((a - b) - c)"),
        ("a + b * c", "(a + (b * c))"),
        ("-a * b", "((-a) * b)"),
        ("!-a", "(!(-a))"),
        ("3 + 4; -5 * 5", "(3 + 4)((-5) * 5)"),
        ("a + b * c + d / e - f", "(((a + (b * c)) + (d / e)) - f)"),
        ("5 > 4 == 3 < 4", "((5 > 4) == (3 < 4))"),
        ("a == b != c", "((a == b) != c)"),
        ("- - 1 + 2", "((-(-1)) + 2)"),
    ];
    for (input, expected) in inputs {
        let program = parse(input).expect("the input holds expression statements only");
        assert_eq!(program.to_string(), expected);
    }
}

#[test]
fn two_statements_are_kept_in_source_order() {
    let program = parse("3 + 4; -5 * 5").unwrap();
    assert_eq!(program.statements.len(), 2);
    assert_eq!(program.statements[0].to_string(), "(3 + 4)");
    assert_eq!(program.statements[1].to_string(), "((-5) * 5)");
    assert_eq!(
        program.statements[0],
        Statement::Expr(Expression::Infix {
            token: Token::Plus,
            left: Box::new(Expression::IntegerLiteral(3)),
            operator: Operator::Plus,
            right: Box::new(Expression::IntegerLiteral(4)),
        })
    );
}

#[test]
fn let_statement_binds_a_name_to_a_literal() {
    let mut parser = parser_on("let x = 5;");
    assert_eq!(
        parser.parse_statement(),
        Ok(Statement::Let(
            Identifier("x".to_string()),
            Expression::IntegerLiteral(5)
        ))
    );
    assert_eq!(*parser.current_token(), Token::Int(5));
}

#[test]
fn return_statement_wraps_a_literal() {
    let mut parser = parser_on("return 993322;");
    assert_eq!(
        parser.parse_statement(),
        Ok(Statement::Return(Expression::IntegerLiteral(993322)))
    );
}

#[test]
fn semicolon_after_let_is_met_as_a_statement_of_its_own() {
    assert_eq!(
        parse("let x = 5;"),
        Err(ParserErrors(vec![ParserError::ExpectExpression(
            ";".to_string()
        )]))
    );
    assert_eq!(
        parse("return 993322;"),
        Err(ParserErrors(vec![ParserError::ExpectExpression(
            ";".to_string()
        )]))
    );
}

#[test]
fn let_and_return_skip_to_the_end_of_the_text() {
    let program = parse("let x = 5 + 6 7 8").unwrap();
    assert_eq!(program.to_string(), "let x = (5 + 6);");
    let program = parse("return a").unwrap();
    assert_eq!(program.statements, vec![Statement::Return(ident("a"))]);
    assert_eq!(program.to_string(), "return a;");
}

#[test]
fn let_skips_what_stands_before_the_semicolon() {
    let mut parser = parser_on("let x = 5 6 ( ; 7");
    assert_eq!(
        parser.parse_statement(),
        Ok(Statement::Let(
            Identifier("x".to_string()),
            Expression::IntegerLiteral(5)
        ))
    );
    assert_eq!(*parser.current_token(), Token::Lparen);
}

#[test]
fn every_failing_statement_is_reported() {
    assert_eq!(
        parse("let = 5; let y 10;"),
        Err(ParserErrors(vec![
            ParserError::ExpectToken {
                expected: "_".to_string(),
                found: "=".to_string()
            },
            ParserError::ExpectExpression("=".to_string()),
            ParserError::ExpectToken {
                expected: "=".to_string(),
                found: "10".to_string()
            },
        ]))
    );
}

#[test]
fn failure_inside_an_expression_names_the_token() {
    assert_eq!(
        parse("a + ;"),
        Err(ParserErrors(vec![ParserError::ExpectExpression(
            ";".to_string()
        )]))
    );
    assert_eq!(
        parse("(a)"),
        Err(ParserErrors(vec![
            ParserError::ExpectExpression("(".to_string()),
            ParserError::ExpectExpression(")".to_string()),
        ]))
    );
    assert_eq!(
        parse("if"),
        Err(ParserErrors(vec![ParserError::ExpectExpression(
            "If".to_string()
        )]))
    );
    assert_eq!(
        parse("-"),
        Err(ParserErrors(vec![ParserError::ExpectExpression(
            "EOF".to_string()
        )]))
    );
}

#[test]
fn operator_tokens_map_to_operators() {
    assert_eq!(parse_to_operator(&Token::Assign), Ok(Operator::Assign));
    assert_eq!(parse_to_operator(&Token::Plus), Ok(Operator::Plus));
    assert_eq!(parse_to_operator(&Token::Minus), Ok(Operator::Minus));
    assert_eq!(parse_to_operator(&Token::Bang), Ok(Operator::Bang));
    assert_eq!(parse_to_operator(&Token::Asterisk), Ok(Operator::Asterisk));
    assert_eq!(parse_to_operator(&Token::Slash), Ok(Operator::Slash));
    assert_eq!(parse_to_operator(&Token::Lt), Ok(Operator::Lt));
    assert_eq!(parse_to_operator(&Token::Gt), Ok(Operator::Gt));
    assert_eq!(parse_to_operator(&Token::Eq), Ok(Operator::Eq));
    assert_eq!(parse_to_operator(&Token::Neq), Ok(Operator::Neq));
    assert_eq!(
        parse_to_operator(&Token::Semicolon),
        Err(ParserError::UnableToParseOperator(";".to_string()))
    );
    assert_eq!(
        parse_to_operator(&Token::Ident("x".to_string())),
        Err(ParserError::UnableToParseOperator("x".to_string()))
    );
}

#[test]
fn empty_text_is_the_empty_program() {
    let program = parse("").unwrap();
    assert_eq!(program, Program::default());
    assert_eq!(program.to_string(), "");
    assert_eq!(parse("  \n\t ").unwrap().statements.len(), 0);
}

#[test]
fn parsing_stops_at_a_zero_byte() {
    let program = parse("a\0b").unwrap();
    assert_eq!(program.statements, vec![Statement::Expr(ident("a"))]);
}

#[test]
fn plain_text_renders_to_itself() {
    for text in ["a5b", "foo", "12", "x_1y", "0"] {
        let first = parse(text).unwrap().to_string();
        assert_eq!(first, text);
        let second = parse(&first).unwrap().to_string();
        assert_eq!(second, first);
    }
}

#[test]
fn literal_beyond_the_end_marker_is_not_read() {
    assert_eq!(
        monkey::parser::parse("a\0 b 99999999999"),
        Some(Ok(Program {
            statements: vec![Statement::Expr(ident("a"))]
        }))
    );
    let mut parser = parser_on("a\0 b 99999999999");
    assert_eq!(
        parser.parse_statement(),
        Ok(Statement::Expr(ident("a")))
    );
    assert!(!parser.overran());
    parser.next_token();
    assert_eq!(*parser.current_token(), Token::EOF);
    assert!(!parser.overran());
    parser.next_token();
    assert_eq!(*parser.current_token(), Token::Ident("b".to_string()));
    assert!(parser.overran());
}

#[test]
fn too_large_literal_ends_the_parse_where_it_is_read() {
    assert_eq!(monkey::parser::parse("99999999999"), None);
    assert_eq!(monkey::parser::parse("a 99999999999"), None);
    assert_eq!(monkey::parser::parse("a\0 99999999999"), None);
    assert_eq!(monkey::parser::parse("a + 2147483648"), None);
    assert_eq!(monkey::parser::parse("let x = 5 2147483648 ;"), None);
    assert!(parser_on("a 99999999999").overran());
    assert!(!parser_on("a b 99999999999").overran());
    assert_eq!(monkey::parser::parse("let x = 2147483648;"), None);
    assert_eq!(
        monkey::parser::parse("2147483647"),
        Some(Ok(Program {
            statements: vec![Statement::Expr(Expression::IntegerLiteral(2147483647))]
        }))
    );
}

#[test]
fn parser_keeps_its_failures_between_passes() {
    let mut parser = parser_on("let");
    assert_eq!(
        parser.parse_program(),
        Err(ParserErrors(vec![ParserError::ExpectToken {
            expected: "_".to_string(),
            found: "EOF".to_string()
        }]))
    );
    assert_eq!(*parser.current_token(), Token::EOF);
    assert_eq!(
        parser.parse_program(),
        Err(ParserErrors(vec![ParserError::ExpectToken {
            expected: "_".to_string(),
            found: "EOF".to_string()
        }]))
    );
}

#[test]
fn canonical_text_with_parentheses_does_not_parse_again() {
    let once = parse("a + b").unwrap().to_string();
    assert_eq!(once, "(a + b)");
    assert_eq!(
        parse(&once),
        Err(ParserErrors(vec![
            ParserError::ExpectExpression("(".to_string()),
            ParserError::ExpectExpression(")".to_string()),
        ]))
    );
}

#[test]
fn equal_operators_group_to_the_left_and_stronger_ones_first() {
    let program = parse("a - b - c * d").unwrap();
    let a_minus_b = Expression::Infix {
        token: Token::Minus,
        left: Box::new(ident("a")),
        operator: Operator::Minus,
        right: Box::new(ident("b")),
    };
    let c_times_d = Expression::Infix {
        token: Token::Asterisk,
        left: Box::new(ident("c")),
        operator: Operator::Asterisk,
        right: Box::new(ident("d")),
    };
    assert_eq!(
        program.statements,
        vec![Statement::Expr(Expression::Infix {
            token: Token::Minus,
            left: Box::new(a_minus_b),
            operator: Operator::Minus,
            right: Box::new(c_times_d),
        })]
    );
}

#[test]
fn chain_of_one_precedence_nests_to_the_left() {
    for (first, second) in [("+", "-"), ("*", "/"), ("<", ">"), ("==", "!=")] {
        let text = format!("a {first} b {second} c {first} d {second} e");
        let mut parser = parser_on(&text);
        let mut e = parser
            .parse_expression(Precedence::Lowest)
            .expect("a chain of operands and operators");
        let rendered = e.to_string();
        assert_eq!(
            rendered,
            format!("((((a {first} b) {second} c) {first} d) {second} e)")
        );
        let mut operators = 0;
        while let Expression::Infix { left, right, .. } = e {
            assert!(matches!(*right, Expression::Ident(_)));
            e = *left;
            operators += 1;
        }
        assert_eq!(operators, 4);
        assert_eq!(e, ident("a"));
    }
}

#[test]
fn of_two_operators_the_stronger_groups_first() {
    let operators = [
        ("+", Token::Plus),
        ("-", Token::Minus),
        ("*", Token::Asterisk),
        ("/", Token::Slash),
        ("==", Token::Eq),
        ("!=", Token::Neq),
        ("<", Token::Lt),
        (">", Token::Gt),
    ];
    for (o1, t1) in &operators {
        for (o2, t2) in &operators {
            let text = format!("x {o1} y {o2} z");
            let mut parser = parser_on(&text);
            let rendered = parser
                .parse_expression(Precedence::Lowest)
                .expect("three operands and two operators")
                .to_string();
            let first_no_weaker = !Precedence::from(t1).lower_than(&Precedence::from(t2));
            assert_eq!(first_no_weaker, Precedence::from(t1) >= Precedence::from(t2));
            if first_no_weaker {
                assert_eq!(rendered, format!("((x {o1} y) {o2} z)"));
            } else {
                assert_eq!(rendered, format!("(x {o1} (y {o2} z))"));
            }
        }
    }
}
