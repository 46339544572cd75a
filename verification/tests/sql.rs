//! Spans, tokens and syntax trees.

use basalt::error::BasaltError;
use basalt::sql::ast::{
    Expr, Literal, OrderByExpr, SelectItem, SelectStatement, Statement, TableRef,
};
use basalt::sql::lexer::Lexer;
use basalt::sql::parser::Parser;
use basalt::sql::span::{Span, Spanned};
use basalt::sql::token::{Keyword, Token};
use basalt::types::coercion::{BinaryOp, UnaryOp};
use basalt::types::data_type::DataType;

#[test]
fn test_span_display() {
    let span = Span::new(10, 20);
    assert_eq!(span.to_string(), "10..20");
}

#[test]
fn test_span_merge() {
    let s1 = Span::new(5, 10);
    let s2 = Span::new(12, 15);
    assert_eq!(s1.merge(s2), Span::new(5, 15));
    assert_eq!(s2.merge(s1), Span::new(5, 15));

    let s3 = Span::new(8, 11);
    assert_eq!(s1.merge(s3), Span::new(5, 11));
}

#[test]
fn test_span_empty() {
    let empty_span = Span::empty(5);
    assert_eq!(empty_span.start, 5);
    assert_eq!(empty_span.end, 5);
    assert_eq!(empty_span.to_string(), "5..5");
}

#[test]
fn test_spanned_deref() {
    let mut s = Spanned::new("hello".to_string(), Span::new(0, 5));
    assert_eq!(s.len(), 5);
    assert_eq!(*s, "hello");

    s.value.push_str(" world");
    assert_eq!(*s, "hello world");
}

#[test]
fn test_spanned_map() {
    let s = Spanned::new(42, Span::new(0, 2));
    let mapped = s.map(|v| v.to_string());
    assert_eq!(mapped.value, "42");
    assert_eq!(mapped.span, Span::new(0, 2));
}

#[test]
fn test_lex_basic() {
    let mut lexer = Lexer::new("SELECT a, 42, 3.14 FROM tbl WHERE a <= 10;");
    let tokens = lexer.tokenize().unwrap();
    assert_eq!(tokens.len(), 14);
    assert_eq!(tokens[0].value, Token::Keyword(Keyword::Select));
    assert_eq!(tokens[1].value, Token::Identifier("a".to_string()));
    assert_eq!(tokens[2].value, Token::Comma);
    assert_eq!(tokens[3].value, Token::Number("42".to_string()));
    assert_eq!(tokens[4].value, Token::Comma);
    assert_eq!(tokens[5].value, Token::Number("3.14".to_string()));
    assert_eq!(tokens[6].value, Token::Keyword(Keyword::From));
    assert_eq!(tokens[7].value, Token::Identifier("tbl".to_string()));
    assert_eq!(tokens[8].value, Token::Keyword(Keyword::Where));
    assert_eq!(tokens[9].value, Token::Identifier("a".to_string()));
    assert_eq!(tokens[10].value, Token::LtEq);
    assert_eq!(tokens[11].value, Token::Number("10".to_string()));
    assert_eq!(tokens[12].value, Token::Semicolon);
}

#[test]
fn test_lex_order_by() {
    let mut lexer = Lexer::new("SELECT * FROM tbl ORDER BY col DESC");
    let tokens = lexer.tokenize().unwrap();
    assert_eq!(tokens.len(), 8);
    assert_eq!(tokens[4].value, Token::Keyword(Keyword::OrderBy));
}

#[test]
fn test_lex_comment_and_string() {
    let mut lexer = Lexer::new("SELECT 'hello ''world''' -- comment line\nFROM tbl");
    let tokens = lexer.tokenize().unwrap();
    assert_eq!(tokens[0].value, Token::Keyword(Keyword::Select));
    assert_eq!(tokens[1].value, Token::String("hello 'world'".to_string()));
    assert_eq!(tokens[2].value, Token::Keyword(Keyword::From));
}

#[test]
fn test_lex_floats() {
    let mut lexer = Lexer::new("123.456 1e-5 2.5E+3");
    let tokens = lexer.tokenize().unwrap();
    assert_eq!(tokens[0].value, Token::Number("123.456".to_string()));
    assert_eq!(tokens[1].value, Token::Number("1e-5".to_string()));
    assert_eq!(tokens[2].value, Token::Number("2.5E+3".to_string()));
}

#[test]
fn test_lex_unterminated_string() {
    let mut lexer = Lexer::new("SELECT 'hello");
    let err = lexer.tokenize().unwrap_err();
    match err {
        BasaltError::Syntax { message, .. } => {
            assert!(message.contains("unterminated string literal"));
        }
        _ => panic!("Expected syntax error for unterminated string"),
    }
}

#[test]
fn test_lex_invalid_char() {
    let mut lexer = Lexer::new("SELECT @var");
    let err = lexer.tokenize().unwrap_err();
    match err {
        BasaltError::Syntax { message, .. } => {
            assert!(message.contains("unexpected character '@'"));
        }
        _ => panic!("Expected syntax error for invalid character"),
    }
}

fn parse_expr_str(input: &str) -> Expr {
    let mut lexer = Lexer::new(input);
    let tokens = lexer.tokenize().unwrap();
    let mut parser = Parser::new(tokens);
    parser.parse_expr(0).unwrap()
}

#[test]
fn test_parse_precedence_arithmetic() {
    let expr = parse_expr_str("a + b * c");
    assert_eq!(
        expr,
        Expr::Binary {
            left: Box::new(Expr::Identifier("a".to_string())),
            op: BinaryOp::Add,
            right: Box::new(Expr::Binary {
                left: Box::new(Expr::Identifier("b".to_string())),
                op: BinaryOp::Mul,
                right: Box::new(Expr::Identifier("c".to_string())),
            })
        }
    );
}

#[test]
fn test_parse_precedence_associativity() {
    let expr = parse_expr_str("a - b - c");
    assert_eq!(
        expr,
        Expr::Binary {
            left: Box::new(Expr::Binary {
                left: Box::new(Expr::Identifier("a".to_string())),
                op: BinaryOp::Sub,
                right: Box::new(Expr::Identifier("b".to_string())),
            }),
            op: BinaryOp::Sub,
            right: Box::new(Expr::Identifier("c".to_string())),
        }
    );
}

#[test]
fn test_parse_precedence_logical() {
    let expr = parse_expr_str("NOT a AND b");
    assert_eq!(
        expr,
        Expr::Binary {
            left: Box::new(Expr::Unary {
                op: UnaryOp::Not,
                expr: Box::new(Expr::Identifier("a".to_string()))
            }),
            op: BinaryOp::And,
            right: Box::new(Expr::Identifier("b".to_string()))
        }
    );
}

#[test]
fn test_parse_postfix_is_null() {
    let expr = parse_expr_str("a IS NULL");
    assert_eq!(
        expr,
        Expr::IsNull {
            expr: Box::new(Expr::Identifier("a".to_string())),
            negated: false,
        }
    );

    let expr = parse_expr_str("a IS NOT NULL");
    assert_eq!(
        expr,
        Expr::IsNull {
            expr: Box::new(Expr::Identifier("a".to_string())),
            negated: true,
        }
    );

    let expr = parse_expr_str("a = b IS NULL");
    assert_eq!(
        expr,
        Expr::IsNull {
            expr: Box::new(Expr::Binary {
                left: Box::new(Expr::Identifier("a".to_string())),
                op: BinaryOp::Eq,
                right: Box::new(Expr::Identifier("b".to_string())),
            }),
            negated: false,
        }
    );

    let expr = parse_expr_str("a + b IS NULL");
    assert_eq!(
        expr,
        Expr::IsNull {
            expr: Box::new(Expr::Binary {
                left: Box::new(Expr::Identifier("a".to_string())),
                op: BinaryOp::Add,
                right: Box::new(Expr::Identifier("b".to_string())),
            }),
            negated: false,
        }
    );

    let expr = parse_expr_str("-a IS NULL");
    assert_eq!(
        expr,
        Expr::IsNull {
            expr: Box::new(Expr::Unary {
                op: UnaryOp::Neg,
                expr: Box::new(Expr::Identifier("a".to_string())),
            }),
            negated: false,
        }
    );
}

#[test]
fn test_parse_cast() {
    let expr = parse_expr_str("CAST(a AS Float64)");
    assert_eq!(
        expr,
        Expr::Cast {
            expr: Box::new(Expr::Identifier("a".to_string())),
            to: DataType::Float64,
        }
    );
}

#[test]
fn test_parse_select_statement() {
    let mut lexer =
        Lexer::new("SELECT a, b AS x FROM tbl WHERE c = 10 ORDER BY d DESC LIMIT 5;");
    let tokens = lexer.tokenize().unwrap();
    let mut parser = Parser::new(tokens);
    let stmt = parser.parse_statement().unwrap();
    assert_eq!(
        stmt,
        Statement::Select(SelectStatement {
            projections: vec![
                SelectItem::Expr {
                    expr: Expr::Identifier("a".to_string()),
                    alias: None,
                },
                SelectItem::Expr {
                    expr: Expr::Identifier("b".to_string()),
                    alias: Some("x".to_string()),
                }
            ],
            from: TableRef {
                name: "tbl".to_string(),
                alias: None,
            },
            selection: Some(Expr::Binary {
                left: Box::new(Expr::Identifier("c".to_string())),
                op: BinaryOp::Eq,
                right: Box::new(Expr::Literal(Literal::Integer(10))),
            }),
            order_by: vec![OrderByExpr {
                expr: Expr::Identifier("d".to_string()),
                asc: false,
            }],
            limit: Some(5),
        })
    );
}

#[test]
fn test_parser_syntax_errors() {
    let mut lexer = Lexer::new("SELECT a FROM tbl WHERE");
    let tokens = lexer.tokenize().unwrap();
    let mut parser = Parser::new(tokens);
    assert!(parser.parse_statement().is_err());

    let mut lexer = Lexer::new("SELECT a tbl");
    let tokens = lexer.tokenize().unwrap();
    let mut parser = Parser::new(tokens);
    assert!(parser.parse_statement().is_err());
}

#[test]
fn test_parse_unmatched_paren_errors() {
    let mut lexer = Lexer::new("SELECT (a FROM tbl");
    let tokens = lexer.tokenize().unwrap();
    let mut parser = Parser::new(tokens);
    assert!(parser.parse_statement().is_err());
}

#[test]
fn test_parse_trailing_comma_in_projections_errors() {
    let mut lexer = Lexer::new("SELECT a, FROM tbl");
    let tokens = lexer.tokenize().unwrap();
    let mut parser = Parser::new(tokens);
    assert!(parser.parse_statement().is_err());
}

#[test]
fn test_parse_empty_input_errors() {
    let mut lexer = Lexer::new("");
    let tokens = lexer.tokenize().unwrap();
    let mut parser = Parser::new(tokens);
    assert!(parser.parse_statement().is_err());
}

#[test]
fn test_parse_nested_parens_preserve_precedence() {
    let expr = parse_expr_str("(a + b) * c");
    assert_eq!(
        expr,
        Expr::Binary {
            left: Box::new(Expr::Nested(Box::new(Expr::Binary {
                left: Box::new(Expr::Identifier("a".to_string())),
                op: BinaryOp::Add,
                right: Box::new(Expr::Identifier("b".to_string())),
            }))),
            op: BinaryOp::Mul,
            right: Box::new(Expr::Identifier("c".to_string())),
        }
    );
}

#[test]
fn test_parse_unary_minus_binds_tighter_than_binary_plus() {
    let expr = parse_expr_str("-a + b");
    assert_eq!(
        expr,
        Expr::Binary {
            left: Box::new(Expr::Unary {
                op: UnaryOp::Neg,
                expr: Box::new(Expr::Identifier("a".to_string())),
            }),
            op: BinaryOp::Add,
            right: Box::new(Expr::Identifier("b".to_string())),
        }
    );
}

#[test]
fn test_parse_string_literal_with_escaped_quote() {
    let expr = parse_expr_str("'it''s'");
    assert_eq!(expr, Expr::Literal(Literal::String("it's".to_string())));
}

fn parse_error(input: &str) -> (usize, usize) {
    let mut lexer = Lexer::new(input);
    let result = match lexer.tokenize() {
        Ok(tokens) => Parser::new(tokens).parse_statement(),
        Err(e) => Err(e),
    };
    match result {
        Err(BasaltError::Syntax { span, .. }) => (span.start, span.end),
        other => panic!("expected a syntax error, got {other:?}"),
    }
}

#[test]
fn syntax_errors_point_at_the_token() {
    assert_eq!(parse_error("SELECT a FROM tbl WHERE"), (23, 23));
    assert_eq!(parse_error("SELECT (a FROM tbl"), (10, 14));
    assert_eq!(parse_error("SELECT a FROM t LIMIT -1"), (22, 23));
    assert_eq!(parse_error("SELECT a FROM t; x"), (17, 18));
    assert_eq!(parse_error("SELECT CAST(a AS blob) FROM t"), (17, 21));
}

#[test]
fn token_spans_are_in_order() {
    let mut lexer = Lexer::new("SELECT  a<>'x''y' -- end");
    let tokens = lexer.tokenize().unwrap();
    let spans: Vec<(usize, usize)> = tokens.iter().map(|t| (t.span.start, t.span.end)).collect();
    assert_eq!(spans, vec![(0, 6), (8, 9), (9, 11), (11, 17), (24, 24)]);
    assert_eq!(tokens[2].value, Token::NotEq);
    assert_eq!(tokens[4].value, Token::Eof);
}

#[test]
fn keywords_are_read_in_any_case() {
    let mut lexer = Lexer::new("select oRdEr  bY order");
    let tokens = lexer.tokenize().unwrap();
    assert_eq!(tokens[0].value, Token::Keyword(Keyword::Select));
    assert_eq!(tokens[1].value, Token::Keyword(Keyword::OrderBy));
    assert_eq!(tokens[2].value, Token::Identifier("order".to_string()));
}

#[test]
fn operators_bind_by_their_strength() {
    // NOT binds looser than a comparison, tighter than AND.
    let expr = parse_expr_str("NOT a = b AND c OR d");
    let not = Expr::Unary {
        op: UnaryOp::Not,
        expr: Box::new(Expr::Binary {
            left: Box::new(Expr::Identifier("a".to_string())),
            op: BinaryOp::Eq,
            right: Box::new(Expr::Identifier("b".to_string())),
        }),
    };
    assert_eq!(
        expr,
        Expr::Binary {
            left: Box::new(Expr::Binary {
                left: Box::new(not),
                op: BinaryOp::And,
                right: Box::new(Expr::Identifier("c".to_string())),
            }),
            op: BinaryOp::Or,
            right: Box::new(Expr::Identifier("d".to_string())),
        }
    );
}

#[test]
fn numbers_are_read_exactly() {
    let float = |text: &str| match parse_expr_str(text) {
        Expr::Literal(Literal::Float(x)) => x.to_bits(),
        other => panic!("expected a double, got {other:?}"),
    };
    assert_eq!(float("3.14"), 3.14f64.to_bits());
    assert_eq!(float("1e-5"), 1e-5f64.to_bits());
    assert_eq!(float("2.5E+3"), 2500.0f64.to_bits());
    assert_eq!(float("1e400"), f64::INFINITY.to_bits());
    assert_eq!(float("0.1"), 0.1f64.to_bits());
    assert_eq!(
        parse_expr_str("9223372036854775807"),
        Expr::Literal(Literal::Integer(i64::MAX))
    );
    let tokens = Lexer::new("9223372036854775808").tokenize().unwrap();
    assert!(Parser::new(tokens).parse_expr(0).is_err());
}

#[test]
fn types_of_casts_have_other_names() {
    for (name, t) in [
        ("int", DataType::Int64),
        ("DOUBLE", DataType::Float64),
        ("varchar", DataType::Utf8),
        ("text", DataType::Utf8),
        ("Bool", DataType::Boolean),
    ] {
        assert_eq!(
            parse_expr_str(&format!("CAST(a AS {name})")),
            Expr::Cast { expr: Box::new(Expr::Identifier("a".to_string())), to: t }
        );
    }
}

fn parse_message(input: &str) -> String {
    let mut lexer = Lexer::new(input);
    let result = match lexer.tokenize() {
        Ok(tokens) => Parser::new(tokens).parse_statement(),
        Err(e) => Err(e),
    };
    match result {
        Err(BasaltError::Syntax { message, .. }) => message,
        other => panic!("expected a syntax error, got {other:?}"),
    }
}

#[test]
fn an_unexpected_character_is_spanned_by_all_its_bytes() {
    assert_eq!(parse_error("\u{20ac}"), (0, 3));
    assert_eq!(parse_message("\u{20ac}"), "unexpected character '\u{20ac}'");
    assert_eq!(parse_error("a \u{e9} b"), (2, 4));
    assert_eq!(parse_error("a @"), (2, 3));
    assert_eq!(parse_message("a @"), "unexpected character '@'");
}

#[test]
fn an_open_string_is_spanned_to_the_end() {
    assert_eq!(parse_error("a '\u{e9}''"), (2, 7));
    assert_eq!(parse_message("a '\u{e9}''"), "unterminated string literal");
}

#[test]
fn syntax_errors_say_what_was_found() {
    assert_eq!(parse_message("FROM t"), "expected SELECT statement, found FROM");
    assert_eq!(parse_message("SELECT a FROM t; x"), "expected EOF, found x");
    assert_eq!(parse_message("SELECT a FROM tbl WHERE"), "expected expression, found EOF");
    assert_eq!(parse_message("SELECT a FROM 1"), "expected identifier, found 1");
    assert_eq!(parse_message("SELECT (a FROM tbl"), "expected ), found FROM");
    assert_eq!(
        parse_message("SELECT 9223372036854775808 FROM t"),
        "invalid integer literal '9223372036854775808'"
    );
    assert_eq!(parse_message("SELECT a FROM t LIMIT 1.5"), "invalid limit number '1.5'");
    assert_eq!(parse_message("SELECT a FROM t LIMIT x"), "expected number for LIMIT, found x");
    assert_eq!(parse_message("SELECT CAST(a AS blob) FROM t"), "unknown data type 'blob'");
}

#[test]
fn tokens_without_an_end_are_read_to_their_last() {
    let mut tokens = Lexer::new("SELECT a FROM t").tokenize().unwrap();
    let whole = Parser::new(tokens.clone()).parse_statement().unwrap();
    tokens.pop();
    assert_eq!(Parser::new(tokens).parse_statement().unwrap(), whole);
    match Parser::new(vec![]).parse_statement() {
        Err(BasaltError::Syntax { span, message }) => {
            assert_eq!(span, Span::new(0, 0));
            assert_eq!(message, "expected SELECT statement, found EOF");
        }
        other => panic!("expected a syntax error, got {other:?}"),
    }
}
