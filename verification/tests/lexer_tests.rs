use monkey::lexer::Lexer;
use monkey::token::Token;

fn lex_all(input: &str) -> Vec<Token> {
    let mut lexer = Lexer::new(input);
    let mut tokens = Vec::new();
    loop {
        assert!(lexer.next_literal_fits());
        let tok = lexer.next_token();
        let done = tok == Token::EOF;
        tokens.push(tok);
        if done {
            return tokens;
        }
    }
}

#[test]
fn test_next_token() {
    let input = r#"let five = 5;
        let ten = 10;
        let add = fn(x, y) {
          x + y;
        };

        let resuLt = add(five, ten);
        !-/*5;
        5 < 10 > 5;

        if (5 < 10) {
          return true;
        } else {
          return false;
        }

        10 == 10;
        10 != 9;
        "#;
    let tests = vec![
        Token::Let,
        Token::Ident("five".to_string()),
        Token::Assign,
        Token::Int(5),
        Token::Semicolon,
        Token::Let,
        Token::Ident("ten".to_string()),
        Token::Assign,
        Token::Int(10),
        Token::Semicolon,
        Token::Let,
        Token::Ident("add".to_string()),
        Token::Assign,
        Token::Function,
        Token::Lparen,
        Token::Ident("x".to_string()),
        Token::Comma,
        Token::Ident("y".to_string()),
        Token::Rparen,
        Token::Lbrace,
        Token::Ident("x".to_string()),
        Token::Plus,
        Token::Ident("y".to_string()),
        Token::Semicolon,
        Token::Rbrace,
        Token::Semicolon,
        Token::Let,
        Token::Ident("resuLt".to_string()),
        Token::Assign,
        Token::Ident("add".to_string()),
        Token::Lparen,
        Token::Ident("five".to_string()),
        Token::Comma,
        Token::Ident("ten".to_string()),
        Token::Rparen,
        Token::Semicolon,
        Token::Bang,
        Token::Minus,
        Token::Slash,
        Token::Asterisk,
        Token::Int(5),
        Token::Semicolon,
        Token::Int(5),
        Token::Lt,
        Token::Int(10),
        Token::Gt,
        Token::Int(5),
        Token::Semicolon,
        Token::If,
        Token::Lparen,
        Token::Int(5),
        Token::Lt,
        Token::Int(10),
        Token::Rparen,
        Token::Lbrace,
        Token::Return,
        Token::True,
        Token::Semicolon,
        Token::Rbrace,
        Token::Else,
        Token::Lbrace,
        Token::Return,
        Token::False,
        Token::Semicolon,
        Token::Rbrace,
        Token::Int(10),
        Token::Eq,
        Token::Int(10),
        Token::Semicolon,
        Token::Int(10),
        Token::Neq,
        Token::Int(9),
        Token::Semicolon,
        Token::EOF,
    ];
    let mut lexer = Lexer::new(input);
    for t in tests {
        let tok = lexer.next_token();
        assert_eq!(t, tok);
    }
}

#[test]
fn unrecognized_bytes_are_illegal_and_consumed() {
    assert_eq!(
        lex_all("a @ #b"),
        vec![
            Token::Ident("a".to_string()),
            Token::Illegal,
            Token::Illegal,
            Token::Ident("b".to_string()),
            Token::EOF,
        ]
    );
}

#[test]
fn two_character_operators_need_both_characters() {
    assert_eq!(
        lex_all("= == ! != =! =="),
        vec![
            Token::Assign,
            Token::Eq,
            Token::Bang,
            Token::Neq,
            Token::Assign,
            Token::Bang,
            Token::Eq,
            Token::EOF,
        ]
    );
    assert_eq!(lex_all("==="), vec![Token::Eq, Token::Assign, Token::EOF]);
    assert_eq!(lex_all("!"), vec![Token::Bang, Token::EOF]);
}

#[test]
fn words_are_letters_and_underscores_only() {
    assert_eq!(
        lex_all("foo_bar1x _ lets"),
        vec![
            Token::Ident("foo_bar".to_string()),
            Token::Int(1),
            Token::Ident("x".to_string()),
            Token::Ident("_".to_string()),
            Token::Ident("lets".to_string()),
            Token::EOF,
        ]
    );
}

#[test]
fn keywords_are_told_from_identifiers() {
    assert_eq!(
        lex_all("fn let true false if else return Let"),
        vec![
            Token::Function,
            Token::Let,
            Token::True,
            Token::False,
            Token::If,
            Token::Else,
            Token::Return,
            Token::Ident("Let".to_string()),
            Token::EOF,
        ]
    );
}

#[test]
fn integer_literals_have_their_decimal_value() {
    assert_eq!(
        lex_all("0 007 2147483647"),
        vec![
            Token::Int(0),
            Token::Int(7),
            Token::Int(2147483647),
            Token::EOF
        ]
    );
}

#[test]
fn too_large_literals_are_found_before_they_are_read() {
    assert!(Lexer::new("2147483647").next_literal_fits());
    assert!(!Lexer::new("2147483648").next_literal_fits());
    assert!(!Lexer::new("  \t99999999999999999999999").next_literal_fits());
    let mut lexer = Lexer::new("a 2147483648 b");
    assert!(lexer.next_literal_fits());
    assert!(!lexer.all_literals_fit());
    assert_eq!(lexer.next_token(), Token::Ident("a".to_string()));
    assert!(!lexer.next_literal_fits());
    assert!(Lexer::new("a 2147483647 b").all_literals_fit());
}

#[test]
fn end_marker_repeats_at_the_end_of_the_text() {
    let mut lexer = Lexer::new("x ");
    assert!(!lexer.at_end());
    assert_eq!(lexer.next_token(), Token::Ident("x".to_string()));
    assert!(!lexer.at_end());
    assert_eq!(lexer.next_token(), Token::EOF);
    assert!(lexer.at_end());
    assert_eq!(lexer.next_token(), Token::EOF);
    assert_eq!(lexer.next_token(), Token::EOF);
    assert!(Lexer::new("").at_end());
}

#[test]
fn zero_byte_is_an_end_marker_that_is_passed() {
    assert_eq!(
        {
            let mut lexer = Lexer::new("a\0b");
            vec![
                lexer.next_token(),
                lexer.next_token(),
                lexer.next_token(),
                lexer.next_token(),
            ]
        },
        vec![
            Token::Ident("a".to_string()),
            Token::EOF,
            Token::Ident("b".to_string()),
            Token::EOF,
        ]
    );
}

#[test]
fn every_other_ascii_byte_is_illegal() {
    for b in 1u8..128 {
        let c = b as char;
        let recognized = c.is_ascii_alphanumeric()
            || c == '_'
            || " \t\n\r=+-!/*<>;(),{}".contains(c);
        let text = c.to_string();
        let mut lexer = Lexer::new(&text);
        let token = lexer.next_token();
        assert_eq!(token == Token::Illegal, !recognized, "byte {}", b);
        if !recognized {
            assert_eq!(lexer.next_token(), Token::EOF);
        }
    }
}

#[test]
fn bytes_beyond_ascii_are_illegal_one_by_one() {
    assert_eq!(
        lex_all("aéb"),
        vec![
            Token::Ident("a".to_string()),
            Token::Illegal,
            Token::Illegal,
            Token::Ident("b".to_string()),
            Token::EOF,
        ]
    );
}

#[test]
fn position_to_read_next_is_one_after_the_cursor() {
    let lexer = Lexer::new("");
    assert_eq!((lexer.position(), lexer.read_position(), lexer.ch()), (0, 1, 0));

    let mut lexer = Lexer::new("a");
    assert_eq!((lexer.position(), lexer.read_position(), lexer.ch()), (0, 1, b'a'));
    assert_eq!(lexer.next_token(), Token::Ident("a".to_string()));
    assert_eq!((lexer.position(), lexer.read_position(), lexer.ch()), (1, 2, 0));
    assert_eq!(lexer.next_token(), Token::EOF);
    assert_eq!((lexer.position(), lexer.read_position(), lexer.ch()), (1, 2, 0));

    let mut lexer = Lexer::new("x == 10;");
    loop {
        assert_eq!(lexer.read_position(), lexer.position() + 1);
        if lexer.next_token() == Token::EOF {
            break;
        }
    }
    assert_eq!((lexer.position(), lexer.read_position(), lexer.ch()), (8, 9, 0));
}
