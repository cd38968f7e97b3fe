use extended_hash_map::expr_ast::charset::{contains_alphabetic, is_ignore_char};
use extended_hash_map::expr_ast::lexer::Lexer;
use extended_hash_map::expr_ast::token::literal::Literal;
use extended_hash_map::expr_ast::token::op::OpKind;
use extended_hash_map::expr_ast::token::Token;

fn exprs_and_tokens() -> (Vec<&'static str>, Vec<Vec<Token>>) {
    (
        vec![
            "(>= 4)",
            "<3.5",
            ">0, <10",
            "<5, >=5, >=3",
            "<5abc>=5 &|c>=3",
            "a>=2",
        ],
        vec![
            vec![
                Token::Op(OpKind::Ge),
                Token::Literal(Literal::Integer(String::from("4"))),
            ],
            vec![
                Token::Op(OpKind::Lt),
                Token::Literal(Literal::Float(String::from("3.5"))),
            ],
            vec![
                Token::Op(OpKind::Gt),
                Token::Literal(Literal::Integer(String::from("0"))),
                Token::Delim,
                Token::Op(OpKind::Lt),
                Token::Literal(Literal::Integer(String::from("10"))),
            ],
            vec![
                Token::Op(OpKind::Lt),
                Token::Literal(Literal::Integer(String::from("5"))),
                Token::Delim,
                Token::Op(OpKind::Ge),
                Token::Literal(Literal::Integer(String::from("5"))),
                Token::Delim,
                Token::Op(OpKind::Ge),
                Token::Literal(Literal::Integer(String::from("3"))),
            ],
            vec![
                Token::Op(OpKind::Lt),
                Token::Literal(Literal::Integer(String::from("5"))),
                Token::Delim,
                Token::Op(OpKind::Ge),
                Token::Literal(Literal::Integer(String::from("5"))),
                Token::Delim,
                Token::Op(OpKind::Ge),
                Token::Literal(Literal::Integer(String::from("3"))),
            ],
            vec![
                Token::Delim,
                Token::Op(OpKind::Ge),
                Token::Literal(Literal::Integer(String::from("2"))),
            ],
        ],
    )
}

fn all_tokens(text: &str) -> Vec<Token> {
    let mut lexer = Lexer::from(text);
    let mut tokens = Vec::new();
    loop {
        let token = lexer.next().unwrap();
        if token.is_eof() {
            return tokens;
        }
        tokens.push(token);
        assert!(tokens.len() <= text.chars().count());
    }
}

#[test]
fn lexer_create_from() {
    let lexer = Lexer::from(">= 4");
    let lexer_str =
        "Lexer { current_char: Peekable { iter: Chars(['>', '=', ' ', '4']), peeked: None } }";

    assert_eq!(lexer_str, format!("{:?}", lexer));
}

#[test]
fn tokenize() {
    let (exprs, expr_tokens) = exprs_and_tokens();

    for (expr, tokens) in exprs.iter().zip(expr_tokens.iter()) {
        let mut lexer = Lexer::from(*expr);

        println!("LEXER: {:?}", lexer);
        println!("LEN: {}", tokens.len());
        for token in tokens {
            assert_eq!(lexer.next().unwrap(), *token);
        }
    }
}

#[test]
fn eof_is_returned_again_and_again() {
    let mut lexer = Lexer::from(" 7 ) ");
    assert_eq!(
        lexer.next().unwrap(),
        Token::Literal(Literal::Integer(String::from("7")))
    );
    for _ in 0..3 {
        assert_eq!(lexer.next().unwrap(), Token::Eof);
    }
}

#[test]
fn empty_text_has_no_token() {
    assert_eq!(all_tokens(""), vec![]);
    assert_eq!(all_tokens(" \t\n()"), vec![]);
}

#[test]
fn every_operator_is_read_and_consumed() {
    assert_eq!(
        all_tokens("= <> < <= > >="),
        vec![
            Token::Op(OpKind::Eq),
            Token::Op(OpKind::Ne),
            Token::Op(OpKind::Lt),
            Token::Op(OpKind::Le),
            Token::Op(OpKind::Gt),
            Token::Op(OpKind::Ge),
        ]
    );
    assert_eq!(
        all_tokens("=5"),
        vec![
            Token::Op(OpKind::Eq),
            Token::Literal(Literal::Integer(String::from("5"))),
        ]
    );
    assert_eq!(
        all_tokens("==>"),
        vec![
            Token::Op(OpKind::Eq),
            Token::Op(OpKind::Eq),
            Token::Op(OpKind::Gt),
        ]
    );
    assert_eq!(
        all_tokens("<=>=<><"),
        vec![
            Token::Op(OpKind::Le),
            Token::Op(OpKind::Ge),
            Token::Op(OpKind::Ne),
            Token::Op(OpKind::Lt),
        ]
    );
}

#[test]
fn numbers_keep_their_text() {
    assert_eq!(
        all_tokens("007 12.50 3. 4.5.6"),
        vec![
            Token::Literal(Literal::Integer(String::from("007"))),
            Token::Literal(Literal::Float(String::from("12.50"))),
            Token::Literal(Literal::Float(String::from("3."))),
            Token::Literal(Literal::Float(String::from("4.5"))),
            Token::Delim,
            Token::Literal(Literal::Integer(String::from("6"))),
        ]
    );
}

#[test]
fn a_run_of_other_characters_is_one_separator() {
    assert_eq!(all_tokens(",;:abc-+*/"), vec![Token::Delim]);
    assert_eq!(all_tokens(".5"), vec![
        Token::Delim,
        Token::Literal(Literal::Integer(String::from("5"))),
    ]);
    // white space and parentheses end a run
    assert_eq!(all_tokens("ab cd"), vec![Token::Delim, Token::Delim]);
    assert_eq!(all_tokens("ab(cd"), vec![Token::Delim, Token::Delim]);
    // so do digits and operators
    assert_eq!(
        all_tokens("a1b<c"),
        vec![
            Token::Delim,
            Token::Literal(Literal::Integer(String::from("1"))),
            Token::Delim,
            Token::Op(OpKind::Lt),
            Token::Delim,
        ]
    );
}

#[test]
fn unicode_white_space_is_ignored() {
    assert_eq!(
        all_tokens("\u{a0}1\u{2003}2\u{3000}"),
        vec![
            Token::Literal(Literal::Integer(String::from("1"))),
            Token::Literal(Literal::Integer(String::from("2"))),
        ]
    );
    // a digit of another script is no digit
    assert_eq!(all_tokens("\u{663}"), vec![Token::Delim]);
}

#[test]
fn set_starts_over() {
    let mut lexer = Lexer::from("1 2");
    assert_eq!(
        lexer.next().unwrap(),
        Token::Literal(Literal::Integer(String::from("1")))
    );
    lexer.set("<9");
    assert_eq!(lexer.next().unwrap(), Token::Op(OpKind::Lt));
    assert_eq!(
        lexer.next().unwrap(),
        Token::Literal(Literal::Integer(String::from("9")))
    );
    assert_eq!(lexer.next().unwrap(), Token::Eof);
}

#[test]
fn token_kinds() {
    assert!(Token::Eof.is_eof());
    assert!(!Token::Delim.is_eof());
    assert!(Token::Delim.is_delim());
    assert!(!Token::Eof.is_delim());
    assert!(Token::Op(OpKind::Ne).is_op());
    assert!(!Token::Delim.is_op());
    assert!(Token::Literal(Literal::Integer(String::from("1"))).is_literal());
    assert!(!Token::Op(OpKind::Eq).is_literal());
}

#[test]
fn white_space_is_the_set_that_the_contract_states() {
    for c in '\0'..=char::MAX {
        let stated = matches!(
            c,
            '\u{9}'..='\u{d}'
                | ' '
                | '\u{85}'
                | '\u{a0}'
                | '\u{1680}'
                | '\u{2000}'..='\u{200a}'
                | '\u{2028}'
                | '\u{2029}'
                | '\u{202f}'
                | '\u{205f}'
                | '\u{3000}'
        );
        assert_eq!(
            is_ignore_char(c),
            stated || c == '(' || c == ')',
            "{:?}",
            c
        );
    }
}

#[test]
fn ascii_letters_are_the_alphabetic_characters_up_to_7f() {
    for c in '\0'..='\u{7f}' {
        let stated = matches!(c, 'a'..='z' | 'A'..='Z');
        assert_eq!(contains_alphabetic(&format!("1{}2", c)), stated, "{:?}", c);
    }
    assert!(contains_alphabetic("1\u{e9}"));
    assert!(contains_alphabetic("\u{4eac}"));
    assert!(!contains_alphabetic("1, 5 \u{1f49d} (2.5)"));
    assert!(!contains_alphabetic(""));
}
