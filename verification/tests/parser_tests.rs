use ckai::expression::{Expression, ReversePolish};
use ckai::parser::{parse, ParseError, Parser};
use ckai::scanner::scan;
use ckai::token::{Token, TokenType};

fn parse_text<'a>(source: &'a str) -> Result<Expression<'a>, ParseError<'a>> {
    let (tokens, errors) = scan(source);
    assert!(errors.is_empty());
    parse(tokens)
}

fn number<'a>(text: &'a str, line: usize) -> Expression<'a> {
    Expression::Literal(Token::new(TokenType::Number(text), text, line))
}

fn name<'a>(text: &'a str, line: usize) -> Expression<'a> {
    Expression::Literal(Token::new(TokenType::Identifier, text, line))
}

fn binary<'a>(left: Expression<'a>, operator: TokenType<'a>, right: Expression<'a>) -> Expression<'a> {
    Expression::Binary(Box::new(left), operator, Box::new(right))
}

fn unary<'a>(operator: TokenType<'a>, operand: Expression<'a>) -> Expression<'a> {
    Expression::Unary(operator, Box::new(operand))
}

fn group<'a>(inner: Expression<'a>) -> Expression<'a> {
    Expression::Grouping(Box::new(inner))
}

fn ternary<'a>(a: Expression<'a>, b: Expression<'a>, c: Expression<'a>) -> Expression<'a> {
    Expression::Ternary(Box::new(a), Box::new(b), Box::new(c))
}

#[test]
fn it_pretty_prints() {
    let a = Box::new(Expression::Literal(Token::new(TokenType::Number("3.0"), "3.0", 1)));
    let b = Box::new(Expression::Literal(Token::new(TokenType::Number("6.0"), "6.0", 1)));
    let exp = Expression::Binary(a, TokenType::Plus, b);
    let una = Expression::Unary(TokenType::Minus, Box::new(exp));
    let group = Expression::Grouping(Box::new(una));

    println!("{}", group.to_string());
    assert_eq!(group.to_string(), "((- (3.0 + 6.0)))");
}

#[test]
fn multiplication_binds_tighter_than_addition() {
    assert_eq!(
        parse_text("1 + 2 * 3"),
        Ok(binary(
            number("1", 1),
            TokenType::Plus,
            binary(number("2", 1), TokenType::Star, number("3", 1))
        ))
    );
}

#[test]
fn operators_of_one_level_group_from_the_left() {
    assert_eq!(
        parse_text("1 - 2 - 3"),
        Ok(binary(
            binary(number("1", 1), TokenType::Minus, number("2", 1)),
            TokenType::Minus,
            number("3", 1)
        ))
    );
    assert_eq!(
        parse_text("8 / 4 * 2"),
        Ok(binary(
            binary(number("8", 1), TokenType::Slash, number("4", 1)),
            TokenType::Star,
            number("2", 1)
        ))
    );
}

#[test]
fn a_ternary_has_three_branches() {
    assert_eq!(
        parse_text("a ? b : c"),
        Ok(ternary(name("a", 1), name("b", 1), name("c", 1)))
    );
}

#[test]
fn a_missing_closing_parenthesis_names_the_line_of_the_opening_one() {
    assert_eq!(
        parse_text("(1 + 2"),
        Err(ParseError::MissingClosingParen { line: 1 })
    );
    assert_eq!(
        parse_text("1 +\n(2\n\n"),
        Err(ParseError::MissingClosingParen { line: 2 })
    );
}

#[test]
fn the_levels_nest_from_equality_down_to_unary() {
    assert_eq!(
        parse_text("a == b < c + d * -e"),
        Ok(binary(
            name("a", 1),
            TokenType::EqualEqual,
            binary(
                name("b", 1),
                TokenType::Less,
                binary(
                    name("c", 1),
                    TokenType::Plus,
                    binary(
                        name("d", 1),
                        TokenType::Star,
                        unary(TokenType::Minus, name("e", 1))
                    )
                )
            )
        ))
    );
}

#[test]
fn every_binary_operator_is_read() {
    for (text, operator) in [
        ("a != b", TokenType::NotEqual),
        ("a == b", TokenType::EqualEqual),
        ("a > b", TokenType::Greater),
        ("a >= b", TokenType::GreaterEqual),
        ("a < b", TokenType::Less),
        ("a <= b", TokenType::LessEqual),
        ("a + b", TokenType::Plus),
        ("a - b", TokenType::Minus),
        ("a * b", TokenType::Star),
        ("a / b", TokenType::Slash),
    ] {
        assert_eq!(
            parse_text(text),
            Ok(binary(name("a", 1), operator, name("b", 1))),
            "{}",
            text
        );
    }
}

#[test]
fn unary_operators_nest() {
    assert_eq!(
        parse_text("--x"),
        Ok(unary(
            TokenType::Minus,
            unary(TokenType::Minus, name("x", 1))
        ))
    );
    assert_eq!(
        parse_text("!!x"),
        Ok(unary(TokenType::Not, unary(TokenType::Not, name("x", 1))))
    );
    assert_eq!(
        parse_text("1 - -2"),
        Ok(binary(
            number("1", 1),
            TokenType::Minus,
            unary(TokenType::Minus, number("2", 1))
        ))
    );
}

#[test]
fn a_group_holds_an_expression() {
    assert_eq!(
        parse_text("(1 + 2) * 3"),
        Ok(binary(
            group(binary(number("1", 1), TokenType::Plus, number("2", 1))),
            TokenType::Star,
            number("3", 1)
        ))
    );
    assert_eq!(parse_text("((x))"), Ok(group(group(name("x", 1)))));
}

#[test]
fn a_ternary_may_stand_inside_a_group() {
    assert_eq!(
        parse_text("(a ? b : c) + 1"),
        Ok(binary(
            group(ternary(name("a", 1), name("b", 1), name("c", 1))),
            TokenType::Plus,
            number("1", 1)
        ))
    );
}

#[test]
fn the_branches_of_a_ternary_are_equalities() {
    assert_eq!(
        parse_text("a == b ? c + 1 : d"),
        Ok(ternary(
            binary(name("a", 1), TokenType::EqualEqual, name("b", 1)),
            binary(name("c", 1), TokenType::Plus, number("1", 1)),
            name("d", 1)
        ))
    );
}

#[test]
fn a_ternary_does_not_chain() {
    let (tokens, _) = scan("a ? b : c ? d : e");
    assert_eq!(
        parse(tokens),
        Err(ParseError::UnexpectedToken {
            line: 1,
            found: TokenType::Question
        })
    );
    assert_eq!(
        parse_text("a ? b ? c : d : e"),
        Err(ParseError::UnterminatedTernary { line: 1 })
    );
}

#[test]
fn literals_keep_their_tokens() {
    assert_eq!(
        parse_text("\n\"s t\""),
        Ok(Expression::Literal(Token::new(
            TokenType::String("s t"),
            "\"s t\"",
            2
        )))
    );
}

#[test]
fn a_question_mark_without_colon_names_the_line_of_the_question_mark() {
    assert_eq!(
        parse_text("a ?\n b"),
        Err(ParseError::UnterminatedTernary { line: 1 })
    );
    assert_eq!(
        parse_text("\n\na ? b + 1 )"),
        Err(ParseError::UnterminatedTernary { line: 3 })
    );
}

#[test]
fn the_end_of_the_input_where_an_expression_starts_is_reported() {
    assert_eq!(
        parse_text(""),
        Err(ParseError::ExpectedExpression { line: 1 })
    );
    assert_eq!(
        parse_text("1 +\n"),
        Err(ParseError::ExpectedExpression { line: 2 })
    );
    assert_eq!(
        parse_text("a ?"),
        Err(ParseError::ExpectedExpression { line: 1 })
    );
    assert_eq!(
        parse_text("("),
        Err(ParseError::ExpectedExpression { line: 1 })
    );
}

#[test]
fn a_token_that_starts_no_expression_is_reported() {
    assert_eq!(
        parse_text("*"),
        Err(ParseError::UnexpectedToken {
            line: 1,
            found: TokenType::Star
        })
    );
    assert_eq!(
        parse_text("1 +\n\n)"),
        Err(ParseError::UnexpectedToken {
            line: 3,
            found: TokenType::RightParen
        })
    );
    assert_eq!(
        parse_text("true"),
        Err(ParseError::UnexpectedToken {
            line: 1,
            found: TokenType::True
        })
    );
}

#[test]
fn tokens_left_behind_the_expression_are_reported() {
    assert_eq!(
        parse_text("1 2"),
        Err(ParseError::UnexpectedToken {
            line: 1,
            found: TokenType::Number("2")
        })
    );
    assert_eq!(
        parse_text("(1)\n)"),
        Err(ParseError::UnexpectedToken {
            line: 2,
            found: TokenType::RightParen
        })
    );
}

#[test]
fn tokens_behind_eof_are_not_read() {
    let tokens = vec![
        Token::new(TokenType::Number("1"), "1", 1),
        Token::new(TokenType::Eof, "", 1),
        Token::new(TokenType::Plus, "+", 1),
    ];
    assert_eq!(parse(tokens), Ok(number("1", 1)));
}

#[test]
fn tokens_without_eof_end_where_they_end() {
    let tokens = vec![
        Token::new(TokenType::Number("1"), "1", 4),
        Token::new(TokenType::Plus, "+", 5),
    ];
    assert_eq!(parse(tokens), Err(ParseError::ExpectedExpression { line: 5 }));
    assert_eq!(
        parse(vec![Token::new(TokenType::Number("1"), "1", 4)]),
        Ok(number("1", 4))
    );
    assert_eq!(parse(vec![]), Err(ParseError::ExpectedExpression { line: 1 }));
}

#[test]
fn a_line_feed_token_starts_no_expression() {
    let tokens = vec![
        Token::new(TokenType::NewLine, "\n", 2),
        Token::new(TokenType::Eof, "", 2),
    ];
    assert_eq!(
        parse(tokens),
        Err(ParseError::UnexpectedToken {
            line: 2,
            found: TokenType::NewLine
        })
    );
}

#[test]
fn expression_reads_to_the_end_of_the_input() {
    let (tokens, _) = scan("1 + 2");
    let mut parser = Parser::new(tokens);
    assert_eq!(parser.curr_idx, 0);
    assert_eq!(
        parser.expression(),
        Ok(binary(number("1", 1), TokenType::Plus, number("2", 1)))
    );
    assert_eq!(parser.curr_idx, 3);
    assert_eq!(parser.tokens[parser.curr_idx].token_type, TokenType::Eof);
    assert_eq!(parser.tokens.len(), 4);
}

#[test]
fn expression_refuses_tokens_left_over() {
    let (tokens, _) = scan("1\n2");
    let mut parser = Parser::new(tokens);
    assert_eq!(
        parser.expression(),
        Err(ParseError::UnexpectedToken {
            line: 2,
            found: TokenType::Number("2")
        })
    );
    assert_eq!(parser.curr_idx, 1);

    let (tokens, _) = scan("1 + 2 )");
    let mut parser = Parser::new(tokens);
    assert_eq!(
        parser.expression(),
        Err(ParseError::UnexpectedToken {
            line: 1,
            found: TokenType::RightParen
        })
    );
    assert_eq!(parser.curr_idx, 3);
}

#[test]
fn a_group_ends_at_its_closing_parenthesis() {
    let (tokens, _) = scan("(1) + 2");
    let mut parser = Parser::new(tokens);
    assert_eq!(
        parser.expression(),
        Ok(binary(group(number("1", 1)), TokenType::Plus, number("2", 1)))
    );
    assert_eq!(parser.curr_idx, 5);
}

#[test]
fn on_failure_the_cursor_stands_at_the_token_at_which_the_parser_stopped() {
    for (source, error, cursor) in [
        ("*", ParseError::UnexpectedToken { line: 1, found: TokenType::Star }, 0),
        ("", ParseError::ExpectedExpression { line: 1 }, 0),
        ("1 +", ParseError::ExpectedExpression { line: 1 }, 2),
        ("- - *", ParseError::UnexpectedToken { line: 1, found: TokenType::Star }, 2),
        ("(1 + 2", ParseError::MissingClosingParen { line: 1 }, 4),
        ("(1 + 2 3", ParseError::MissingClosingParen { line: 1 }, 4),
        ("1 * (2 + )", ParseError::UnexpectedToken { line: 1, found: TokenType::RightParen }, 5),
        ("a ? b", ParseError::UnterminatedTernary { line: 1 }, 3),
        ("a ? b )", ParseError::UnterminatedTernary { line: 1 }, 3),
        ("a ? b : *", ParseError::UnexpectedToken { line: 1, found: TokenType::Star }, 4),
        ("a ? b : c d", ParseError::UnexpectedToken { line: 1, found: TokenType::Identifier }, 5),
    ] {
        let (tokens, _) = scan(source);
        let mut parser = Parser::new(tokens);
        assert_eq!(parser.expression(), Err(error), "{}", source);
        assert_eq!(parser.curr_idx, cursor, "{}", source);
    }
}

#[test]
fn the_cursor_never_passes_eof_and_the_tokens_stay() {
    for source in [
        "",
        "1",
        "1 + 2 * 3",
        "1 2",
        "(1 + 2",
        "((((",
        "a ? b",
        "a ? b : c ? d : e",
        "- - -",
        ")",
        "1 + * 2",
    ] {
        let (tokens, _) = scan(source);
        let eof = tokens.len() - 1;
        let mut parser = Parser::new(tokens.clone());
        let _ = parser.expression();
        assert!(parser.curr_idx <= eof, "{}", source);
        assert_eq!(parser.tokens, tokens, "{}", source);
    }
}

#[test]
fn a_cursor_past_the_last_token_stays_where_it_is() {
    let (tokens, _) = scan("1");
    let mut parser = Parser::new(tokens);
    parser.curr_idx = 7;
    assert_eq!(
        parser.expression(),
        Err(ParseError::ExpectedExpression { line: 1 })
    );
    assert_eq!(parser.curr_idx, 7);
}

#[test]
fn two_parsers_on_the_same_tokens_end_alike() {
    for source in ["1 + 2", "1 2", "(1", "a ? b : c", "a ? b", "*"] {
        let (tokens, _) = scan(source);
        let mut first = Parser::new(tokens.clone());
        let mut second = Parser::new(tokens);
        assert_eq!(first.expression(), second.expression(), "{}", source);
        assert_eq!(first.curr_idx, second.curr_idx, "{}", source);
    }
}

#[test]
fn parse_and_the_parser_agree() {
    for source in ["1 + 2", "1 2", "(1", "a ? b : c", "a ? b", "*", "(a ? b : c) * 2"] {
        let (tokens, _) = scan(source);
        let mut parser = Parser::new(tokens.clone());
        assert_eq!(parser.expression(), parse(tokens), "{}", source);
    }
}

#[test]
fn infix_form_puts_every_composite_node_between_parentheses() {
    assert_eq!(parse_text("1 + 2 * 3").unwrap().to_string(), "(1 + (2 * 3))");
    assert_eq!(parse_text("-x").unwrap().to_string(), "(- x)");
    assert_eq!(parse_text("(x)").unwrap().to_string(), "(x)");
    assert_eq!(
        parse_text("a != \"b\" ? 1.5 : !c").unwrap().to_string(),
        "((a != \"b\") ? 1.5 : (! c))"
    );
}

#[test]
fn reverse_polish_form_puts_operators_behind_operands() {
    assert_eq!(parse_text("1 + 2 * 3").unwrap().print_rpn(), "1 2 3 * +");
    assert_eq!(parse_text("-x").unwrap().print_rpn(), "x -");
    assert_eq!(parse_text("(1 + 2) * 3").unwrap().print_rpn(), "( 1 2 + ) 3 *");
    assert_eq!(parse_text("a ? b : c").unwrap().print_rpn(), "a b c : ?");
    assert_eq!(parse_text("\"s\" <= 2.5").unwrap().print_rpn(), "\"s\" 2.5 <=");
}

#[test]
fn every_kind_is_spelled_as_in_source_text() {
    for (kind, text) in [
        (TokenType::LeftParen, "("),
        (TokenType::RightParen, ")"),
        (TokenType::LeftBrace, "{"),
        (TokenType::RightBrace, "}"),
        (TokenType::Comma, ","),
        (TokenType::Dot, "."),
        (TokenType::SemiColon, ";"),
        (TokenType::Minus, "-"),
        (TokenType::Plus, "+"),
        (TokenType::Slash, "/"),
        (TokenType::Star, "*"),
        (TokenType::Question, "?"),
        (TokenType::Colon, ":"),
        (TokenType::NewLine, "\n"),
        (TokenType::Not, "!"),
        (TokenType::NotEqual, "!="),
        (TokenType::Equal, "="),
        (TokenType::EqualEqual, "=="),
        (TokenType::Greater, ">"),
        (TokenType::GreaterEqual, ">="),
        (TokenType::Less, "<"),
        (TokenType::LessEqual, "<="),
        (TokenType::Identifier, "Identifier"),
        (TokenType::String("a b"), "\"a b\""),
        (TokenType::Number("1.5"), "1.5"),
        (TokenType::And, "and"),
        (TokenType::For, "for"),
        (TokenType::If, "if"),
        (TokenType::Else, "else"),
        (TokenType::While, "while"),
        (TokenType::Class, "class"),
        (TokenType::Nil, "nil"),
        (TokenType::Or, "or"),
        (TokenType::False, "false"),
        (TokenType::True, "true"),
        (TokenType::Var, "var"),
        (TokenType::Print, "print"),
        (TokenType::Return, "return"),
        (TokenType::This, "this"),
        (TokenType::Super, "super"),
        (TokenType::Eof, ""),
    ] {
        assert_eq!(kind.text(), text);
    }
}

fn without_groups<'a>(expression: &Expression<'a>) -> Expression<'a> {
    match expression {
        Expression::Binary(left, operator, right) => {
            binary(without_groups(left), *operator, without_groups(right))
        }
        Expression::Unary(operator, operand) => unary(*operator, without_groups(operand)),
        Expression::Grouping(inner) => without_groups(inner),
        Expression::Literal(token) => {
            Expression::Literal(Token::new(token.token_type, token.lexeme, 0))
        }
        Expression::Ternary(a, b, c) => {
            ternary(without_groups(a), without_groups(b), without_groups(c))
        }
    }
}

#[test]
fn the_infix_form_parses_back_to_the_same_tree_up_to_groups_and_lines() {
    for source in [
        "1 + 2 * 3",
        "1 - 2 - 3",
        "a ? b : c",
        "-(a + 1.5) / !b",
        "a == b != c",
        "\"x\ny\" <= (k >= 2.)",
        "(a ? b + 1 : c) < d ? e : _f",
        "x",
    ] {
        let tree = parse_text(source).unwrap();
        let printed = tree.to_string();
        let (tokens, errors) = scan(&printed);
        assert!(errors.is_empty(), "{}", printed);
        let again = parse(tokens).unwrap();
        assert_eq!(without_groups(&again), without_groups(&tree), "{}", printed);
    }
}
