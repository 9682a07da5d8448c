use spreadsheet::common_types::{Comparison, Decimal, Numeric, Token};
use spreadsheet::parser::tokenizer::{ExpressionTokenizer, TokenizeError};

#[derive(Debug, Clone, Copy, PartialEq)]
struct F64(f64);

impl Numeric for F64 {
    fn decimal(value: Decimal) -> Self {
        let sign = if value.negative { "-" } else { "" };
        F64(format!("{}{}e{}", sign, value.mantissa, value.exponent).parse().unwrap())
    }

    fn sum(self, rhs: Self) -> Self {
        F64(self.0 + rhs.0)
    }

    fn difference(self, rhs: Self) -> Self {
        F64(self.0 - rhs.0)
    }

    fn product(self, rhs: Self) -> Self {
        F64(self.0 * rhs.0)
    }

    fn quotient(self, rhs: Self) -> Self {
        F64(self.0 / rhs.0)
    }

    fn ordering(self, rhs: Self) -> Option<Comparison> {
        if self.0 < rhs.0 {
            Some(Comparison::Less)
        } else if self.0 > rhs.0 {
            Some(Comparison::Greater)
        } else if self.0 == rhs.0 {
            Some(Comparison::Equal)
        } else {
            None
        }
    }

    fn from_decimal(value: Decimal) -> Self {
        Self::decimal(value)
    }

    fn plus(self, rhs: Self) -> Self {
        self.sum(rhs)
    }

    fn minus(self, rhs: Self) -> Self {
        self.difference(rhs)
    }

    fn times(self, rhs: Self) -> Self {
        self.product(rhs)
    }

    fn over(self, rhs: Self) -> Self {
        self.quotient(rhs)
    }

    fn compare(self, rhs: Self) -> Option<Comparison> {
        self.ordering(rhs)
    }
}

fn tokenize(s: &str) -> Result<Vec<Token<F64>>, TokenizeError> {
    ExpressionTokenizer::new(s.chars().collect()).tokenize_expression::<F64>()
}

#[test]
fn test_simple_expression() {
    let s = "A1 + A2";
    let tokens = ExpressionTokenizer::new(s.chars().collect()).tokenize_expression::<F64>().unwrap();
    assert_eq!(
        tokens,
        vec![
            Token::CellName("A1".to_string()),
            Token::Plus,
            Token::CellName("A2".to_string())
        ]
    );
}

#[test]
fn test_expression_with_parentheses() {
    let s = "(A1 + B2) * C3";
    let tokens = ExpressionTokenizer::new(s.chars().collect()).tokenize_expression::<F64>().unwrap();
    assert_eq!(
        tokens,
        vec![
            Token::LParen,
            Token::CellName("A1".to_string()),
            Token::Plus,
            Token::CellName("B2".to_string()),
            Token::RParen,
            Token::Multiply,
            Token::CellName("C3".to_string())
        ]
    );
}

#[test]
fn test_expression_with_division_and_whitespace() {
    let s = "  A1   /   B2 ";
    let tokens = ExpressionTokenizer::new(s.chars().collect()).tokenize_expression::<F64>().unwrap();
    assert_eq!(
        tokens,
        vec![
            Token::CellName("A1".to_string()),
            Token::Division,
            Token::CellName("B2".to_string())
        ]
    );
}

#[test]
fn test_complex_expression() {
    let s = "((A1 + B2) - C3) * D4 / E5";
    let tokens = ExpressionTokenizer::new(s.chars().collect()).tokenize_expression::<F64>().unwrap();
    assert_eq!(
        tokens,
        vec![
            Token::LParen,
            Token::LParen,
            Token::CellName("A1".to_string()),
            Token::Plus,
            Token::CellName("B2".to_string()),
            Token::RParen,
            Token::Minus,
            Token::CellName("C3".to_string()),
            Token::RParen,
            Token::Multiply,
            Token::CellName("D4".to_string()),
            Token::Division,
            Token::CellName("E5".to_string())
        ]
    );
}

#[test]
fn test_empty_expression() {
    let s = "";
    let tokens = ExpressionTokenizer::new(s.chars().collect()).tokenize_expression::<F64>().unwrap();
    assert!(
        tokens.is_empty(),
        "Expected empty token list for empty expression"
    );
}

#[test]
fn test_expression_with_extra_whitespace() {
    let s = "   A1    +     A2   ";
    let tokens = ExpressionTokenizer::new(s.chars().collect()).tokenize_expression::<F64>().unwrap();
    assert_eq!(
        tokens,
        vec![
            Token::CellName("A1".to_string()),
            Token::Plus,
            Token::CellName("A2".to_string())
        ]
    );
}

#[test]
fn test_tokenize_numbers() {
    assert_eq!(tokenize("123").unwrap(), vec![Token::Number(F64(123.0))]);
    assert_eq!(tokenize("3.14").unwrap(), vec![Token::Number(F64(3.14))]);
    assert_eq!(tokenize("1e5").unwrap(), vec![Token::Number(F64(100000.0))]);
    assert_eq!(tokenize("2.5E-3").unwrap(), vec![Token::Number(F64(0.0025))]);
    assert_eq!(tokenize("1e+2").unwrap(), vec![Token::Number(F64(100.0))]);
    assert_eq!(tokenize("0.1").unwrap(), vec![Token::Number(F64(0.1))]);
    assert_eq!(
        tokenize("12+0.5").unwrap(),
        vec![Token::Number(F64(12.0)), Token::Plus, Token::Number(F64(0.5))]
    );
}

#[test]
fn test_tokenize_long_number_keeps_its_size() {
    let digits = "1234567890123456789012345678901234567890123456789";
    assert_eq!(tokenize(digits).unwrap(), vec![Token::Number(F64(1.2345678901234568e48))]);
    assert_eq!(
        tokenize("0.00000000000000000000000000000000000000000001").unwrap(),
        vec![Token::Number(F64(1e-44))]
    );
    assert_eq!(tokenize("1e400").unwrap(), vec![Token::Number(F64(f64::INFINITY))]);
    assert_eq!(tokenize("1e-400").unwrap(), vec![Token::Number(F64(0.0))]);
    assert_eq!(
        tokenize("1e99999999999999999999").unwrap(),
        vec![Token::Number(F64(f64::INFINITY))]
    );
}

#[test]
fn test_tokenize_invalid_numbers() {
    assert_eq!(tokenize("1."), Err(TokenizeError::InvalidNumber("1.".to_string())));
    assert_eq!(tokenize("1.x"), Err(TokenizeError::InvalidNumber("1.".to_string())));
    assert_eq!(tokenize("2e"), Err(TokenizeError::InvalidNumber("2e".to_string())));
    assert_eq!(tokenize("2e+"), Err(TokenizeError::InvalidNumber("2e+".to_string())));
    assert_eq!(tokenize("7 + 2E-"), Err(TokenizeError::InvalidNumber("2E-".to_string())));
}

#[test]
fn test_tokenize_strings() {
    assert_eq!(tokenize("\"hello world\"").unwrap(), vec![Token::Text("hello world".to_string())]);
    assert_eq!(tokenize("\"\"").unwrap(), vec![Token::Text("".to_string())]);
    assert_eq!(
        tokenize("\"a\"+\"b\"").unwrap(),
        vec![Token::Text("a".to_string()), Token::Plus, Token::Text("b".to_string())]
    );
    assert_eq!(tokenize("\"open"), Err(TokenizeError::UnterminatedString));
    assert_eq!(tokenize("\""), Err(TokenizeError::UnterminatedString));
}

#[test]
fn test_tokenize_names() {
    assert_eq!(tokenize("AA12").unwrap(), vec![Token::CellName("AA12".to_string())]);
    assert_eq!(
        tokenize("SUM(A1:B5)").unwrap(),
        vec![
            Token::FunctionName("SUM".to_string()),
            Token::LParen,
            Token::CellName("A1".to_string()),
            Token::RangeSep,
            Token::CellName("B5".to_string()),
            Token::RParen
        ]
    );
    assert_eq!(tokenize("TRUE").unwrap(), vec![Token::Bool(true)]);
    assert_eq!(tokenize("FALSE").unwrap(), vec![Token::Bool(false)]);
    assert_eq!(tokenize("TRUE1").unwrap(), vec![Token::CellName("TRUE1".to_string())]);
    assert_eq!(
        tokenize("TRUE(").unwrap(),
        vec![Token::FunctionName("TRUE".to_string()), Token::LParen]
    );
    assert_eq!(tokenize("ABC"), Err(TokenizeError::InvalidCellName("ABC".to_string())));
    assert_eq!(tokenize("A +"), Err(TokenizeError::InvalidCellName("A".to_string())));
    assert_eq!(tokenize("SUM (1)"), Err(TokenizeError::InvalidCellName("SUM".to_string())));
}

#[test]
fn test_tokenize_operators() {
    assert_eq!(
        tokenize("== != >= <= && || ! > < , :").unwrap(),
        vec![
            Token::Equals,
            Token::NotEquals,
            Token::GreaterEquals,
            Token::LessEquals,
            Token::And,
            Token::Or,
            Token::Not,
            Token::GreaterThan,
            Token::LessThan,
            Token::ArgSeparator,
            Token::RangeSep
        ]
    );
    assert_eq!(tokenize("!A1").unwrap(), vec![Token::Not, Token::CellName("A1".to_string())]);
    assert_eq!(
        tokenize("A1>=B1").unwrap(),
        vec![
            Token::CellName("A1".to_string()),
            Token::GreaterEquals,
            Token::CellName("B1".to_string())
        ]
    );
    assert_eq!(tokenize("!!=").unwrap(), vec![Token::Not, Token::NotEquals]);
}

#[test]
fn test_tokenize_unexpected_characters() {
    assert_eq!(tokenize("A1 = B1"), Err(TokenizeError::UnexpectedCharacter('=')));
    assert_eq!(tokenize("A1 & B1"), Err(TokenizeError::UnexpectedCharacter('&')));
    assert_eq!(tokenize("A1 | B1"), Err(TokenizeError::UnexpectedCharacter('|')));
    assert_eq!(tokenize("a1"), Err(TokenizeError::UnexpectedCharacter('a')));
    assert_eq!(tokenize(".5"), Err(TokenizeError::UnexpectedCharacter('.')));
    assert_eq!(tokenize("A1\tB1"), Err(TokenizeError::UnexpectedCharacter('\t')));
    assert_eq!(tokenize("1 # 2"), Err(TokenizeError::UnexpectedCharacter('#')));
}

#[test]
fn test_tokenize_skips_blanks_and_line_feeds() {
    assert_eq!(
        tokenize(" \n A1 \n\n+ 2 \n").unwrap(),
        vec![Token::CellName("A1".to_string()), Token::Plus, Token::Number(F64(2.0))]
    );
    assert_eq!(tokenize(" \n ").unwrap(), vec![]);
}

#[test]
fn test_tokenizer_cursor() {
    let mut tokenizer = ExpressionTokenizer::new("  A1".chars().collect());
    assert!(!tokenizer.is_done());
    assert_eq!(tokenizer.peek(), Some(' '));
    assert!(tokenizer.skip_whitespace());
    assert_eq!(tokenizer.peek(), Some('A'));
    assert_eq!(tokenizer.pop(), Some('A'));
    assert_eq!(tokenizer.pop(), Some('1'));
    assert!(tokenizer.is_done());
    assert_eq!(tokenizer.peek(), None);
    assert_eq!(tokenizer.pop(), None);
    assert!(!tokenizer.skip_whitespace());
}
