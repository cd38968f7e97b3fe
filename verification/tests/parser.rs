use extended_hash_map::expr_ast::node::{BinOp, Node, Tree};
use extended_hash_map::expr_ast::parser::ParserErr;
use extended_hash_map::expr_ast::token::literal::Literal;
use extended_hash_map::expr_ast::token::op::OpKind;
use extended_hash_map::expr_ast::token::Token;
use extended_hash_map::expr_ast::Parser;

fn clause(op: OpKind, rhs: Literal) -> Node {
    Node::BinOp(BinOp {
        lhs: Literal::Integer(String::new()),
        op,
        rhs,
    })
}

fn condition_exprs_and_trees() -> (Vec<&'static str>, Vec<Tree>) {
    (
        vec![
            "( >= 4)",
            "<3.5",
            ">0, <10",
            "<5, >=5, >=3",
            "<5abc>=5 &|c>=3",
            "a>=2",
            " < 5 >=5 >= 3",
        ],
        vec![
            Tree {
                root: vec![Node::BinOp(BinOp {
                    lhs: Literal::Integer(String::new()),
                    op: OpKind::Ge,
                    rhs: Literal::Integer("4".to_string()),
                })],
            },
            Tree {
                root: vec![Node::BinOp(BinOp {
                    lhs: Literal::Integer(String::new()),
                    op: OpKind::Lt,
                    rhs: Literal::Float("3.5".to_string()),
                })],
            },
            Tree {
                root: vec![
                    Node::BinOp(BinOp {
                        lhs: Literal::Integer(String::new()),
                        op: OpKind::Gt,
                        rhs: Literal::Integer("0".to_string()),
                    }),
                    Node::BinOp(BinOp {
                        lhs: Literal::Integer(String::new()),
                        op: OpKind::Lt,
                        rhs: Literal::Integer("10".to_string()),
                    }),
                ],
            },
            Tree {
                root: vec![
                    Node::BinOp(BinOp {
                        lhs: Literal::Integer(String::new()),
                        op: OpKind::Lt,
                        rhs: Literal::Integer("5".to_string()),
                    }),
                    Node::BinOp(BinOp {
                        lhs: Literal::Integer(String::new()),
                        op: OpKind::Ge,
                        rhs: Literal::Integer("5".to_string()),
                    }),
                    Node::BinOp(BinOp {
                        lhs: Literal::Integer(String::new()),
                        op: OpKind::Ge,
                        rhs: Literal::Integer("3".to_string()),
                    }),
                ],
            },
            Tree {
                root: vec![
                    Node::BinOp(BinOp {
                        lhs: Literal::Integer(String::new()),
                        op: OpKind::Lt,
                        rhs: Literal::Integer("5".to_string()),
                    }),
                    Node::BinOp(BinOp {
                        lhs: Literal::Integer(String::new()),
                        op: OpKind::Ge,
                        rhs: Literal::Integer("5".to_string()),
                    }),
                    Node::BinOp(BinOp {
                        lhs: Literal::Integer(String::new()),
                        op: OpKind::Ge,
                        rhs: Literal::Integer("3".to_string()),
                    }),
                ],
            },
            Tree {
                root: vec![Node::BinOp(BinOp {
                    lhs: Literal::Integer(String::new()),
                    op: OpKind::Ge,
                    rhs: Literal::Integer("2".to_string()),
                })],
            },
            Tree {
                root: vec![
                    Node::BinOp(BinOp {
                        lhs: Literal::Integer(String::new()),
                        op: OpKind::Lt,
                        rhs: Literal::Integer("5".to_string()),
                    }),
                    Node::BinOp(BinOp {
                        lhs: Literal::Integer(String::new()),
                        op: OpKind::Ge,
                        rhs: Literal::Integer("5".to_string()),
                    }),
                    Node::BinOp(BinOp {
                        lhs: Literal::Integer(String::new()),
                        op: OpKind::Ge,
                        rhs: Literal::Integer("3".to_string()),
                    }),
                ],
            },
        ],
    )
}

fn exprs_and_trees() -> (Vec<&'static str>, Vec<Tree>) {
    (
        vec!["(5, 5)", "value1"],
        vec![
            Tree {
                root: vec![
                    Node::Literal(Literal::Integer(String::from("5"))),
                    Node::Literal(Literal::Integer(String::from("5"))),
                ],
            },
            Tree {
                root: vec![Node::Literal(Literal::Integer(String::from("1")))],
            },
        ],
    )
}

#[test]
fn parser_create() {
    let mut parser = Parser::new();
    assert_eq!(parser.current_token, Token::Eof);

    parser = Parser::default();
    assert_eq!(parser.current_token, Token::Eof);
}

#[test]
fn parse_condition() {
    let mut parser = Parser::new();
    let (exprs, trees) = condition_exprs_and_trees();

    for (expr, tree) in exprs.iter().zip(trees.iter()) {
        assert_eq!(parser.parse_condition(expr).unwrap().root, tree.root);
    }
}

#[test]
fn parse() {
    let mut parser = Parser::new();
    let (exprs, trees) = exprs_and_trees();

    for (expr, tree) in exprs.iter().zip(trees.iter()) {
        assert_eq!(parser.parse(expr).unwrap().root, tree.root);
    }
}

#[test]
fn condition_without_literal_is_a_mismatch() {
    let mut parser = Parser::new();

    assert_eq!(
        parser.parse_condition(">,.2").unwrap_err(),
        ParserErr::TokenMismatch
    );
    assert_eq!(
        parser.parse_condition(">").unwrap_err(),
        ParserErr::TokenMismatch
    );
    assert_eq!(
        parser.parse_condition("> <").unwrap_err(),
        ParserErr::TokenMismatch
    );
}

#[test]
fn condition_that_begins_with_a_literal_is_a_mismatch() {
    let mut parser = Parser::new();

    assert_eq!(
        parser.parse_condition("5").unwrap_err(),
        ParserErr::TokenMismatch
    );
    assert_eq!(
        parser.parse_condition(">1 2").unwrap_err(),
        ParserErr::TokenMismatch
    );
}

#[test]
fn two_separators_in_a_row_are_a_mismatch() {
    let mut parser = Parser::new();

    assert_eq!(parser.parse("1, ,2").unwrap_err(), ParserErr::TokenMismatch);
    assert_eq!(parser.parse("a b").unwrap_err(), ParserErr::TokenMismatch);
    assert_eq!(
        parser.parse_condition(">1, ,<2").unwrap_err(),
        ParserErr::TokenMismatch
    );
}

#[test]
fn operator_in_a_key_is_a_mismatch() {
    let mut parser = Parser::new();

    assert_eq!(parser.parse("1 < 2").unwrap_err(), ParserErr::TokenMismatch);
    assert_eq!(parser.parse(">=1").unwrap_err(), ParserErr::TokenMismatch);
}

#[test]
fn empty_and_separator_only_texts_parse_to_empty_trees() {
    let mut parser = Parser::new();

    assert_eq!(parser.parse("").unwrap().root, vec![]);
    assert_eq!(parser.parse(" ( ) ").unwrap().root, vec![]);
    assert_eq!(parser.parse(",").unwrap().root, vec![]);
    assert_eq!(parser.parse_condition("").unwrap().root, vec![]);
    assert_eq!(parser.parse_condition("abc").unwrap().root, vec![]);
}

#[test]
fn one_separator_may_end_a_text() {
    let mut parser = Parser::new();

    assert_eq!(
        parser.parse("1,2,").unwrap().root,
        vec![
            Node::Literal(Literal::Integer(String::from("1"))),
            Node::Literal(Literal::Integer(String::from("2"))),
        ]
    );
    assert_eq!(
        parser.parse_condition("=1.5;").unwrap().root,
        vec![clause(OpKind::Eq, Literal::Float(String::from("1.5")))]
    );
}

#[test]
fn literals_need_no_separator() {
    let mut parser = Parser::new();

    assert_eq!(
        parser.parse("1 2.5 3").unwrap().root,
        vec![
            Node::Literal(Literal::Integer(String::from("1"))),
            Node::Literal(Literal::Float(String::from("2.5"))),
            Node::Literal(Literal::Integer(String::from("3"))),
        ]
    );
    assert_eq!(
        parser.parse_condition("<>2<=3").unwrap().root,
        vec![
            clause(OpKind::Ne, Literal::Integer(String::from("2"))),
            clause(OpKind::Le, Literal::Integer(String::from("3"))),
        ]
    );
}

#[test]
fn parser_is_at_the_end_after_a_parse() {
    let mut parser = Parser::new();

    parser.parse("1, 2").unwrap();
    assert_eq!(parser.current_token, Token::Eof);
    parser.parse_condition(">1").unwrap();
    assert_eq!(parser.current_token, Token::Eof);
}

#[test]
fn a_failed_parse_does_not_spoil_the_next() {
    let mut parser = Parser::new();

    assert!(parser.parse("<").is_err());
    assert_eq!(
        parser.parse("4").unwrap().root,
        vec![Node::Literal(Literal::Integer(String::from("4")))]
    );
}

#[test]
fn a_failed_parse_stays_on_the_offending_token() {
    let mut parser = Parser::new();

    assert!(parser.parse("1 < 2").is_err());
    assert_eq!(parser.current_token, Token::Op(OpKind::Lt));
    assert!(parser.parse("1, ,2").is_err());
    assert_eq!(parser.current_token, Token::Delim);

    assert!(parser.parse_condition(">,.2").is_err());
    assert_eq!(parser.current_token, Token::Delim);
    assert!(parser.parse_condition(">").is_err());
    assert_eq!(parser.current_token, Token::Eof);
    assert!(parser.parse_condition("<1 5").is_err());
    assert_eq!(
        parser.current_token,
        Token::Literal(Literal::Integer(String::from("5")))
    );
    assert!(parser.parse_condition(">= <= 3").is_err());
    assert_eq!(parser.current_token, Token::Op(OpKind::Le));
}
