use spreadsheet::common_types::{
    Cell, Comparison, Decimal, Index, Numeric, ParsedCell, Token, Value, AST,
};
use spreadsheet::parser::ast_creator::{ASTCreateError, ASTCreator};
use spreadsheet::parser::number::parse_decimal;
use spreadsheet::parser::tokenizer::ExpressionTokenizer;
use spreadsheet::parser::CellParser;

#[derive(Debug, Clone, Copy, PartialEq)]
struct F64(f64);

impl Numeric for F64 {
    fn decimal(value: Decimal) -> Self {
        let sign = if value.negative { "-" } else { "" };
        F64(format!("{}{}e{}", sign, value.mantissa, value.exponent).parse().unwrap())
    }

    fn sum(self, rhs: Self) -> Self {
        F64(self.0 + rhs.0)
    }

    fn difference(self, rhs: Self) -> Self {
        F64(self.0 - rhs.0)
    }

    fn product(self, rhs: Self) -> Self {
        F64(self.0 * rhs.0)
    }

    fn quotient(self, rhs: Self) -> Self {
        F64(self.0 / rhs.0)
    }

    fn ordering(self, rhs: Self) -> Option<Comparison> {
        if self.0 < rhs.0 {
            Some(Comparison::Less)
        } else if self.0 > rhs.0 {
            Some(Comparison::Greater)
        } else if self.0 == rhs.0 {
            Some(Comparison::Equal)
        } else {
            None
        }
    }

    fn from_decimal(value: Decimal) -> Self {
        Self::decimal(value)
    }

    fn plus(self, rhs: Self) -> Self {
        self.sum(rhs)
    }

    fn minus(self, rhs: Self) -> Self {
        self.difference(rhs)
    }

    fn times(self, rhs: Self) -> Self {
        self.product(rhs)
    }

    fn over(self, rhs: Self) -> Self {
        self.quotient(rhs)
    }

    fn compare(self, rhs: Self) -> Option<Comparison> {
        self.ordering(rhs)
    }
}

fn parse(s: &str) -> Result<AST<F64>, ASTCreateError> {
    let tokens = ExpressionTokenizer::new(s.chars().collect()).tokenize_expression::<F64>().unwrap();
    ASTCreator::new(tokens).parse()
}

fn number(x: f64) -> AST<F64> {
    AST::Value(Value::Number(F64(x)))
}

fn cell(name: &str) -> AST<F64> {
    AST::CellName(name.to_string())
}

fn binary(op: Token<F64>, left: AST<F64>, right: AST<F64>) -> AST<F64> {
    AST::BinaryOp { op, left: Box::new(left), right: Box::new(right) }
}

fn not(expr: AST<F64>) -> AST<F64> {
    AST::UnaryOp { op: Token::Not, expr: Box::new(expr) }
}

fn call(name: &str, arguments: Vec<AST<F64>>) -> AST<F64> {
    AST::FunctionCall { name: name.to_string(), arguments }
}

fn range(from: &str, to: &str) -> AST<F64> {
    AST::Range { from: from.to_string(), to: to.to_string() }
}

#[test]
fn test_parse_operands() {
    assert_eq!(parse("42"), Ok(number(42.0)));
    assert_eq!(parse("A1"), Ok(cell("A1")));
    assert_eq!(parse("TRUE"), Ok(AST::Value(Value::Bool(true))));
    assert_eq!(parse("\"hi\""), Ok(AST::Value(Value::Text("hi".to_string()))));
    assert_eq!(parse("((A1))"), Ok(cell("A1")));
}

#[test]
fn test_parse_multiplication_binds_tighter_than_addition() {
    assert_eq!(
        parse("1+2*3"),
        Ok(binary(Token::Plus, number(1.0), binary(Token::Multiply, number(2.0), number(3.0))))
    );
    assert_eq!(
        parse("1*2+3"),
        Ok(binary(Token::Plus, binary(Token::Multiply, number(1.0), number(2.0)), number(3.0)))
    );
    assert_eq!(
        parse("(1+2)*3"),
        Ok(binary(Token::Multiply, binary(Token::Plus, number(1.0), number(2.0)), number(3.0)))
    );
}

#[test]
fn test_parse_binary_operators_associate_to_the_left() {
    assert_eq!(
        parse("1-2-3"),
        Ok(binary(Token::Minus, binary(Token::Minus, number(1.0), number(2.0)), number(3.0)))
    );
    assert_eq!(
        parse("8/4/2"),
        Ok(binary(Token::Division, binary(Token::Division, number(8.0), number(4.0)), number(2.0)))
    );
    assert_eq!(
        parse("1-2+3"),
        Ok(binary(Token::Plus, binary(Token::Minus, number(1.0), number(2.0)), number(3.0)))
    );
}

#[test]
fn test_parse_all_levels_of_precedence() {
    let expected = binary(
        Token::Or,
        cell("A1"),
        binary(
            Token::And,
            cell("B1"),
            binary(
                Token::Equals,
                cell("C1"),
                binary(
                    Token::LessThan,
                    cell("D1"),
                    binary(
                        Token::Plus,
                        cell("E1"),
                        binary(Token::Multiply, cell("F1"), not(cell("G1"))),
                    ),
                ),
            ),
        ),
    );
    assert_eq!(parse("A1 || B1 && C1 == D1 < E1 + F1 * !G1"), Ok(expected));
    let expected = binary(
        Token::Or,
        binary(
            Token::And,
            binary(
                Token::NotEquals,
                binary(
                    Token::GreaterEquals,
                    binary(Token::Minus, binary(Token::Division, cell("A1"), cell("B1")), cell("C1")),
                    cell("D1"),
                ),
                cell("E1"),
            ),
            cell("F1"),
        ),
        cell("G1"),
    );
    assert_eq!(parse("A1 / B1 - C1 >= D1 != E1 && F1 || G1"), Ok(expected));
}

#[test]
fn test_parse_not() {
    assert_eq!(parse("!A1"), Ok(not(cell("A1"))));
    assert_eq!(parse("!!A1"), Ok(not(not(cell("A1")))));
    assert_eq!(parse("A1 && !A2"), Ok(binary(Token::And, cell("A1"), not(cell("A2")))));
    assert_eq!(parse("!A1 == B1"), Ok(binary(Token::Equals, not(cell("A1")), cell("B1"))));
    assert_eq!(parse("!(A1 == B1)"), Ok(not(binary(Token::Equals, cell("A1"), cell("B1")))));
}

#[test]
fn test_parse_calls() {
    assert_eq!(parse("SUM()"), Ok(call("SUM", vec![])));
    assert_eq!(parse("SUM(1)"), Ok(call("SUM", vec![number(1.0)])));
    assert_eq!(
        parse("SUM(1, A1+2, 3)"),
        Ok(call(
            "SUM",
            vec![number(1.0), binary(Token::Plus, cell("A1"), number(2.0)), number(3.0)]
        ))
    );
    assert_eq!(
        parse("MAX(SUM(A1, 2), MIN())"),
        Ok(call("MAX", vec![call("SUM", vec![cell("A1"), number(2.0)]), call("MIN", vec![])]))
    );
    assert_eq!(
        parse("1 + IF(A1 > 2, (3), 4) * 5"),
        Ok(binary(
            Token::Plus,
            number(1.0),
            binary(
                Token::Multiply,
                call(
                    "IF",
                    vec![binary(Token::GreaterThan, cell("A1"), number(2.0)), number(3.0), number(4.0)]
                ),
                number(5.0),
            ),
        ))
    );
}

#[test]
fn test_parse_ranges() {
    assert_eq!(parse("SUM(A1:B5)"), Ok(call("SUM", vec![range("A1", "B5")])));
    assert_eq!(
        parse("SUM(A1:A3, 5, C1:C2)"),
        Ok(call("SUM", vec![range("A1", "A3"), number(5.0), range("C1", "C2")]))
    );
    assert_eq!(parse("A1:B2"), Ok(range("A1", "B2")));
    assert_eq!(parse("A1:B2 + 1"), Ok(binary(Token::Plus, range("A1", "B2"), number(1.0))));
}

#[test]
fn test_parse_invalid_ranges() {
    assert_eq!(parse("A1:2"), Err(ASTCreateError::InvalidRange));
    assert_eq!(parse("1:A2"), Err(ASTCreateError::InvalidRange));
    assert_eq!(parse(":A2"), Err(ASTCreateError::InvalidRange));
    assert_eq!(parse("A1:"), Err(ASTCreateError::InvalidRange));
    assert_eq!(parse("SUM(A1:)"), Err(ASTCreateError::InvalidRange));
    assert_eq!(parse("(A1):B2"), Err(ASTCreateError::InvalidRange));
    assert_eq!(parse("A1:B2:C3"), Err(ASTCreateError::InvalidRange));
    assert_eq!(parse("A1:(B2)"), Err(ASTCreateError::InvalidRange));
}

#[test]
fn test_parse_unexpected_tokens() {
    assert_eq!(parse(""), Err(ASTCreateError::UnexpectedToken));
    assert_eq!(parse("1 +"), Err(ASTCreateError::UnexpectedToken));
    assert_eq!(parse("+ 1"), Err(ASTCreateError::UnexpectedToken));
    assert_eq!(parse("-3"), Err(ASTCreateError::UnexpectedToken));
    assert_eq!(parse("1 2"), Err(ASTCreateError::UnexpectedToken));
    assert_eq!(parse("A1 A2"), Err(ASTCreateError::UnexpectedToken));
    assert_eq!(parse("1 + * 2"), Err(ASTCreateError::UnexpectedToken));
    assert_eq!(parse("1 !"), Err(ASTCreateError::UnexpectedToken));
    assert_eq!(parse("!"), Err(ASTCreateError::UnexpectedToken));
    assert_eq!(parse("()"), Err(ASTCreateError::UnexpectedToken));
    assert_eq!(parse("(1 +)"), Err(ASTCreateError::UnexpectedToken));
    assert_eq!(parse("1, 2"), Err(ASTCreateError::UnexpectedToken));
    assert_eq!(parse("(1, 2)"), Err(ASTCreateError::UnexpectedToken));
    assert_eq!(parse("SUM(1,)"), Err(ASTCreateError::UnexpectedToken));
    assert_eq!(parse("SUM(,1)"), Err(ASTCreateError::UnexpectedToken));
    assert_eq!(parse("2 SUM(1)"), Err(ASTCreateError::UnexpectedToken));
    assert_eq!(parse("1 (2)"), Err(ASTCreateError::UnexpectedToken));
}

#[test]
fn test_parse_mismatched_parentheses() {
    assert_eq!(parse("(1"), Err(ASTCreateError::MismatchedParentheses));
    assert_eq!(parse("((1)"), Err(ASTCreateError::MismatchedParentheses));
    assert_eq!(parse("1)"), Err(ASTCreateError::MismatchedParentheses));
    assert_eq!(parse(")"), Err(ASTCreateError::MismatchedParentheses));
    assert_eq!(parse("(1))"), Err(ASTCreateError::MismatchedParentheses));
    assert_eq!(parse("SUM(1"), Err(ASTCreateError::MismatchedParentheses));
    assert_eq!(parse("SUM(1, (2)"), Err(ASTCreateError::MismatchedParentheses));
    assert_eq!(parse("1 + 2) * 3"), Err(ASTCreateError::MismatchedParentheses));
}

#[test]
fn test_parse_tokens_without_a_tokenizer() {
    let tokens: Vec<Token<F64>> = vec![Token::FunctionName("F".to_string()), Token::CellName("A1".to_string())];
    assert_eq!(ASTCreator::new(tokens).parse(), Err(ASTCreateError::UnexpectedToken));
    let tokens: Vec<Token<F64>> = vec![Token::FunctionName("F".to_string())];
    assert_eq!(ASTCreator::new(tokens).parse(), Err(ASTCreateError::UnexpectedToken));
    let tokens: Vec<Token<F64>> = vec![Token::Number(F64(1.0)), Token::Plus, Token::Number(F64(2.0))];
    assert_eq!(
        ASTCreator::new(tokens).parse(),
        Ok(binary(Token::Plus, number(1.0), number(2.0)))
    );
}

fn read(raw: &str) -> Option<ParsedCell<F64>> {
    CellParser::parse_text::<F64>(raw).ok()
}

#[test]
fn test_cell_parser_reads_numbers() {
    assert!(matches!(read("42"), Some(ParsedCell::Number(F64(x))) if x == 42.0));
    assert!(matches!(read("-3.14"), Some(ParsedCell::Number(F64(x))) if x == -3.14));
    assert!(matches!(read("+5"), Some(ParsedCell::Number(F64(x))) if x == 5.0));
    assert!(matches!(read("1e5"), Some(ParsedCell::Number(F64(x))) if x == 100000.0));
    assert!(matches!(read("5."), Some(ParsedCell::Number(F64(x))) if x == 5.0));
    assert!(matches!(read("5.e1"), Some(ParsedCell::Number(F64(x))) if x == 50.0));
    assert!(matches!(read("0.5E-1"), Some(ParsedCell::Number(F64(x))) if x == 0.05));
    assert!(matches!(read("-0"), Some(ParsedCell::Number(F64(x))) if x == 0.0 && x.is_sign_negative()));
    assert!(matches!(read("007"), Some(ParsedCell::Number(F64(x))) if x == 7.0));
}

#[test]
fn test_cell_parser_refuses_half_numbers() {
    for raw in ["+", "-", "-x", "+inf", "-nan", "1x", "1 ", "1e", "1e+", "1.5.2", "12abc", "--1", "1,5", "-.5", "+ 1"] {
        assert!(read(raw).is_none(), "{:?} should not be read", raw);
    }
}

#[test]
fn test_cell_parser_reads_booleans_and_texts() {
    assert!(matches!(read("TRUE"), Some(ParsedCell::Bool(true))));
    assert!(matches!(read("FALSE"), Some(ParsedCell::Bool(false))));
    assert!(matches!(read("true"), Some(ParsedCell::Text(s)) if s == "true"));
    assert!(matches!(read("TRUE "), Some(ParsedCell::Text(s)) if s == "TRUE "));
    assert!(matches!(read("hello world"), Some(ParsedCell::Text(s)) if s == "hello world"));
    assert!(matches!(read(" 1"), Some(ParsedCell::Text(s)) if s == " 1"));
    assert!(matches!(read(".5"), Some(ParsedCell::Text(s)) if s == ".5"));
    assert!(matches!(read("\u{661}"), Some(ParsedCell::Text(s)) if s == "\u{661}"));
}

#[test]
fn test_cell_parser_reads_formulas() {
    match read("=A1+A2") {
        Some(ParsedCell::Expr(e)) => {
            assert_eq!(e.ast, binary(Token::Plus, cell("A1"), cell("A2")));
            assert_eq!(e.dependencies, vec![Index { x: 0, y: 0 }, Index { x: 0, y: 1 }]);
        }
        other => panic!("expected a formula, got {:?}", other),
    }
    match read("= 1 + 2") {
        Some(ParsedCell::Expr(e)) => {
            assert_eq!(e.ast, binary(Token::Plus, number(1.0), number(2.0)));
            assert_eq!(e.dependencies, vec![]);
        }
        other => panic!("expected a formula, got {:?}", other),
    }
}

#[test]
fn test_cell_parser_refuses_broken_formulas() {
    for raw in ["=", "=1+", "=(1", "=1)", "=A1:2", "=a1", "=\"open", "=ABC", "=1.", "=1 = 2", "=-1"] {
        assert!(read(raw).is_none(), "{:?} should not be read", raw);
    }
}

#[test]
fn test_dependencies_hold_each_cell_once() {
    match read("=A1+B1*A1-B1+A1") {
        Some(ParsedCell::Expr(e)) => {
            assert_eq!(e.dependencies, vec![Index { x: 0, y: 0 }, Index { x: 1, y: 0 }]);
        }
        other => panic!("expected a formula, got {:?}", other),
    }
}

#[test]
fn test_dependencies_hold_the_cells_of_ranges() {
    match read("=SUM(A1:A3, B2) + A2 + !C1") {
        Some(ParsedCell::Expr(e)) => {
            assert_eq!(
                e.dependencies,
                vec![
                    Index { x: 0, y: 0 },
                    Index { x: 0, y: 1 },
                    Index { x: 0, y: 2 },
                    Index { x: 1, y: 1 },
                    Index { x: 2, y: 0 }
                ]
            );
        }
        other => panic!("expected a formula, got {:?}", other),
    }
    match read("=SUM(A1:B2, MAX(B2:C2))") {
        Some(ParsedCell::Expr(e)) => {
            assert_eq!(
                e.dependencies,
                vec![
                    Index { x: 0, y: 0 },
                    Index { x: 0, y: 1 },
                    Index { x: 1, y: 0 },
                    Index { x: 1, y: 1 },
                    Index { x: 2, y: 1 }
                ]
            );
        }
        other => panic!("expected a formula, got {:?}", other),
    }
}

#[test]
fn test_dependencies_leave_out_names_of_no_cell() {
    match read("=A0+A1") {
        Some(ParsedCell::Expr(e)) => assert_eq!(e.dependencies, vec![Index { x: 0, y: 0 }]),
        other => panic!("expected a formula, got {:?}", other),
    }
}

#[test]
fn test_find_dependants() {
    let ast = call("sum", vec![range("B1", "B2"), cell("A1"), cell("B1")]);
    assert_eq!(
        CellParser::find_dependants(&ast),
        vec![Index { x: 1, y: 0 }, Index { x: 1, y: 1 }, Index { x: 0, y: 0 }]
    );
    assert_eq!(CellParser::find_dependants(&number(1.0)), vec![]);
}

#[test]
fn test_parse_cell_fills_the_cell() {
    let mut cell: Cell<F64> = Cell::from_raw("=A1".to_string());
    assert!(cell.parsed_representation.is_none());
    assert!(cell.computed_value.is_none());
    assert_eq!(cell.raw_representation, "=A1");
    CellParser::parse_cell(&mut cell);
    assert_eq!(cell.raw_representation, "=A1");
    assert!(cell.computed_value.is_none());
    assert!(matches!(cell.parsed_representation, Some(Ok(ParsedCell::Expr(_)))));
    let mut cell: Cell<F64> = Cell::from_raw("=(".to_string());
    CellParser::parse_cell(&mut cell);
    assert!(matches!(cell.parsed_representation, Some(Err(_))));
}

fn decimal(s: &str) -> Option<Decimal> {
    let chars: Vec<char> = s.chars().collect();
    parse_decimal(&chars, 0, chars.len())
}

#[test]
fn test_parse_decimal_is_exact() {
    assert_eq!(decimal("0"), Some(Decimal { negative: false, mantissa: 0, exponent: 0 }));
    assert_eq!(decimal("123"), Some(Decimal { negative: false, mantissa: 123, exponent: 0 }));
    assert_eq!(decimal("-3.14"), Some(Decimal { negative: true, mantissa: 314, exponent: -2 }));
    assert_eq!(decimal("+1.50e3"), Some(Decimal { negative: false, mantissa: 150, exponent: 1 }));
    assert_eq!(decimal("12E-4"), Some(Decimal { negative: false, mantissa: 12, exponent: -4 }));
    assert_eq!(decimal("5."), Some(Decimal { negative: false, mantissa: 5, exponent: 0 }));
    assert_eq!(decimal("0.001"), Some(Decimal { negative: false, mantissa: 1, exponent: -3 }));
}

#[test]
fn test_parse_decimal_of_a_part() {
    let chars: Vec<char> = "x12.5y".chars().collect();
    assert_eq!(
        parse_decimal(&chars, 1, 5),
        Some(Decimal { negative: false, mantissa: 125, exponent: -1 })
    );
    assert_eq!(parse_decimal(&chars, 0, 5), None);
    assert_eq!(parse_decimal(&chars, 1, 6), None);
    assert_eq!(parse_decimal(&chars, 2, 2), None);
}

#[test]
fn test_parse_decimal_leaves_out_digits_that_do_not_fit() {
    let room = (u128::MAX - 9) / 10;
    assert_eq!(
        decimal(&format!("{}9", room)),
        Some(Decimal { negative: false, mantissa: room * 10 + 9, exponent: 0 })
    );
    assert_eq!(
        decimal(&format!("{}", u128::MAX)),
        Some(Decimal { negative: false, mantissa: u128::MAX / 10, exponent: 1 })
    );
    assert_eq!(
        decimal(&format!("{}999", u128::MAX / 10)),
        Some(Decimal { negative: false, mantissa: u128::MAX / 10, exponent: 3 })
    );
    assert_eq!(
        decimal(&format!("0.{}999", u128::MAX / 10)),
        Some(Decimal { negative: false, mantissa: u128::MAX / 10, exponent: -38 })
    );
    assert_eq!(
        decimal(&format!("{}999.999e-3", u128::MAX / 10)),
        Some(Decimal { negative: false, mantissa: u128::MAX / 10, exponent: 0 })
    );
}

#[test]
fn test_parse_decimal_clamps_the_exponent() {
    assert_eq!(
        decimal("1e99999999999"),
        Some(Decimal { negative: false, mantissa: 1, exponent: i32::MAX })
    );
    assert_eq!(
        decimal("1e-99999999999"),
        Some(Decimal { negative: false, mantissa: 1, exponent: i32::MIN })
    );
    assert_eq!(
        decimal("1e2147483647"),
        Some(Decimal { negative: false, mantissa: 1, exponent: i32::MAX })
    );
}

#[test]
fn test_parse_decimal_refuses_what_is_no_literal() {
    for s in ["", "+", "-", ".", ".5", "e5", "1e", "1e+", "1.2.3", "1 ", " 1", "1e5x", "0x10", "1_000", "inf"] {
        assert_eq!(decimal(s), None, "{:?}", s);
    }
}
