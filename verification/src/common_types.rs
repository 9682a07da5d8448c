//! Shared data types of the engine: coordinates, the numeric scalar, values,
//! errors, tokens, expression trees and cells, each with its mathematical view.

use vstd::prelude::*;
use vstd::string::StringExecFns;

verus! {

/// A zero-based cell coordinate: `x` is the column, `y` the row.
#[derive(PartialEq, Eq, Structural, Hash, Debug, Clone, Copy)]
pub struct Index {
    pub x: usize,
    pub y: usize,
}

/// The outcome of comparing two numbers that can be compared.
#[derive(PartialEq, Eq, Structural, Debug, Clone, Copy)]
pub enum Comparison {
    Less,
    Equal,
    Greater,
}

/// A decimal literal in exact form: `(-1)^negative * mantissa * 10^exponent`.
#[derive(PartialEq, Eq, Structural, Debug, Clone, Copy)]
pub struct Decimal {
    pub negative: bool,
    pub mantissa: u128,
    pub exponent: i32,
}

/// The scalar that numeric cells hold.
///
/// The engine is generic in its arithmetic: it never inspects a number, it
/// only combines numbers through these operations.  Each operation is a
/// function of its arguments; the spec functions name those functions, so
/// that the contracts of the engine can speak of the numbers it returns.
///
/// [`crate::whole::Whole`] is a verified kind of number.  Binary floating
/// point is a kind of number that only code outside the verifier can give:
/// there each named function is the operation itself, and what the engine
/// guarantees rests on the operations being functions of their arguments.
pub trait Numeric: Copy {
    /// The number denoted by a decimal literal.
    spec fn decimal(value: Decimal) -> Self;

    /// `self + rhs`.
    spec fn sum(self, rhs: Self) -> Self;

    /// `self - rhs`.
    spec fn difference(self, rhs: Self) -> Self;

    /// `self * rhs`.
    spec fn product(self, rhs: Self) -> Self;

    /// `self / rhs`; total, division by zero is not an error.
    spec fn quotient(self, rhs: Self) -> Self;

    /// How `self` stands to `rhs`, or `None` where the two are unordered.
    spec fn ordering(self, rhs: Self) -> Option<Comparison>;

    /// The number denoted by a decimal literal.
    fn from_decimal(value: Decimal) -> (r: Self)
        ensures
            r == Self::decimal(value),
    ;

    /// `self + rhs`.
    fn plus(self, rhs: Self) -> (r: Self)
        ensures
            r == self.sum(rhs),
    ;

    /// `self - rhs`.
    fn minus(self, rhs: Self) -> (r: Self)
        ensures
            r == self.difference(rhs),
    ;

    /// `self * rhs`.
    fn times(self, rhs: Self) -> (r: Self)
        ensures
            r == self.product(rhs),
    ;

    /// `self / rhs`.
    fn over(self, rhs: Self) -> (r: Self)
        ensures
            r == self.quotient(rhs),
    ;

    /// How `self` stands to `rhs`.
    fn compare(self, rhs: Self) -> (r: Option<Comparison>)
        ensures
            r == self.ordering(rhs),
    ;
}

/// A computed cell value.
#[derive(Debug, PartialEq, Clone)]
pub enum Value<N> {
    Text(String),
    Number(N),
    Bool(bool),
}

/// The mathematical view of a [`Value`].
pub enum ValueView<N> {
    Text(Seq<char>),
    Number(N),
    Bool(bool),
}

impl<N: Numeric> View for Value<N> {
    type V = ValueView<N>;

    open spec fn view(&self) -> ValueView<N> {
        match self {
            Value::Text(s) => ValueView::Text(s@),
            Value::Number(n) => ValueView::Number(*n),
            Value::Bool(b) => ValueView::Bool(*b),
        }
    }
}

impl<N: Numeric> ValueView<N> {
    /// Addition: numbers add, texts concatenate, anything else is undefined.
    pub open spec fn sum(self, other: Self) -> Option<Self> {
        match (self, other) {
            (ValueView::Number(a), ValueView::Number(b)) => Some(ValueView::Number(a.sum(b))),
            (ValueView::Text(a), ValueView::Text(b)) => Some(ValueView::Text(a + b)),
            _ => None,
        }
    }

    /// Subtraction: defined for two numbers.
    pub open spec fn difference(self, other: Self) -> Option<Self> {
        match (self, other) {
            (ValueView::Number(a), ValueView::Number(b)) => Some(
                ValueView::Number(a.difference(b)),
            ),
            _ => None,
        }
    }

    /// Multiplication: defined for two numbers.
    pub open spec fn product(self, other: Self) -> Option<Self> {
        match (self, other) {
            (ValueView::Number(a), ValueView::Number(b)) => Some(ValueView::Number(a.product(b))),
            _ => None,
        }
    }

    /// Division: defined for two numbers, whatever the divisor.
    pub open spec fn quotient(self, other: Self) -> Option<Self> {
        match (self, other) {
            (ValueView::Number(a), ValueView::Number(b)) => Some(ValueView::Number(a.quotient(b))),
            _ => None,
        }
    }

    /// Equality within a tag; values of different tags are never equal.
    pub open spec fn same(self, other: Self) -> bool {
        match (self, other) {
            (ValueView::Number(a), ValueView::Number(b)) => a.ordering(b) == Some(
                Comparison::Equal,
            ),
            (ValueView::Text(a), ValueView::Text(b)) => a == b,
            (ValueView::Bool(a), ValueView::Bool(b)) => a == b,
            _ => false,
        }
    }

    /// The ordering of two numbers; `None` for anything that is not two numbers.
    pub open spec fn numbers(self, other: Self) -> Option<Option<Comparison>> {
        match (self, other) {
            (ValueView::Number(a), ValueView::Number(b)) => Some(a.ordering(b)),
            _ => None,
        }
    }

    /// `>`: defined for two numbers.
    pub open spec fn greater_than(self, other: Self) -> Option<Self> {
        match self.numbers(other) {
            Some(c) => Some(ValueView::Bool(c == Some(Comparison::Greater))),
            None => None,
        }
    }

    /// `<`: defined for two numbers.
    pub open spec fn less_than(self, other: Self) -> Option<Self> {
        match self.numbers(other) {
            Some(c) => Some(ValueView::Bool(c == Some(Comparison::Less))),
            None => None,
        }
    }

    /// `>=`: defined for two numbers.
    pub open spec fn greater_equals(self, other: Self) -> Option<Self> {
        match self.numbers(other) {
            Some(c) => Some(
                ValueView::Bool(c == Some(Comparison::Greater) || c == Some(Comparison::Equal)),
            ),
            None => None,
        }
    }

    /// `<=`: defined for two numbers.
    pub open spec fn less_equals(self, other: Self) -> Option<Self> {
        match self.numbers(other) {
            Some(c) => Some(
                ValueView::Bool(c == Some(Comparison::Less) || c == Some(Comparison::Equal)),
            ),
            None => None,
        }
    }

    /// Conjunction: defined for two booleans.
    pub open spec fn and(self, other: Self) -> Option<Self> {
        match (self, other) {
            (ValueView::Bool(a), ValueView::Bool(b)) => Some(ValueView::Bool(a && b)),
            _ => None,
        }
    }

    /// Disjunction: defined for two booleans.
    pub open spec fn or(self, other: Self) -> Option<Self> {
        match (self, other) {
            (ValueView::Bool(a), ValueView::Bool(b)) => Some(ValueView::Bool(a || b)),
            _ => None,
        }
    }
}

/// The view of an optional value.
pub open spec fn option_view<N: Numeric>(v: Option<Value<N>>) -> Option<ValueView<N>> {
    match v {
        Some(v) => Some(v@),
        None => None,
    }
}

/// `head` followed by `tail`.
fn concat_text(head: &String, tail: &String) -> (r: String)
    ensures
        r@ == head@ + tail@,
{
    let mut joined = head.clone();
    joined.append(tail.as_str());
    joined
}

impl<N: Numeric> Value<N> {
    /// A copy with the same view.
    pub fn duplicate(&self) -> (r: Self)
        ensures
            r@ == self@,
    {
        match self {
            Value::Text(s) => Value::Text(s.clone()),
            Value::Number(n) => Value::Number(*n),
            Value::Bool(b) => Value::Bool(*b),
        }
    }

    /// The sum of two numbers or the concatenation of two texts; `None` for anything else.
    pub fn add(&self, other: Value<N>) -> (r: Option<Value<N>>)
        ensures
            option_view(r) == self@.sum(other@),
    {
        match (self, other) {
            (Value::Number(a), Value::Number(b)) => Some(Value::Number(a.plus(b))),
            (Value::Text(a), Value::Text(b)) => Some(Value::Text(concat_text(a, &b))),
            _ => None,
        }
    }

    /// The difference of two numbers; `None` for anything else.
    pub fn sub(&self, other: Value<N>) -> (r: Option<Value<N>>)
        ensures
            option_view(r) == self@.difference(other@),
    {
        match (self, other) {
            (Value::Number(a), Value::Number(b)) => Some(Value::Number(a.minus(b))),
            _ => None,
        }
    }

    /// The product of two numbers; `None` for anything else.
    pub fn mult(&self, other: Value<N>) -> (r: Option<Value<N>>)
        ensures
            option_view(r) == self@.product(other@),
    {
        match (self, other) {
            (Value::Number(a), Value::Number(b)) => Some(Value::Number(a.times(b))),
            _ => None,
        }
    }

    /// The quotient of two numbers; `None` for anything else.
    pub fn div(&self, other: Value<N>) -> (r: Option<Value<N>>)
        ensures
            option_view(r) == self@.quotient(other@),
    {
        match (self, other) {
            (Value::Number(a), Value::Number(b)) => Some(Value::Number(a.over(b))),
            _ => None,
        }
    }

    /// Equality as the `==` operator of formulas sees it.
    pub fn equals(&self, other: &Value<N>) -> (r: bool)
        ensures
            r == self@.same(other@),
    {
        match (self, other) {
            (Value::Number(a), Value::Number(b)) => {
                match a.compare(*b) {
                    Some(Comparison::Equal) => true,
                    _ => false,
                }
            },
            (Value::Text(a), Value::Text(b)) => {
                let same = *a == *b;
                assert(same == (a@ =~= b@));
                same
            },
            (Value::Bool(a), Value::Bool(b)) => *a == *b,
            _ => false,
        }
    }

    /// Whether a number is greater than another; `None` for anything else.
    pub fn greater_than(&self, other: Value<N>) -> (r: Option<Value<N>>)
        ensures
            option_view(r) == self@.greater_than(other@),
    {
        match (self, other) {
            (Value::Number(a), Value::Number(b)) => {
                let c = a.compare(b);
                Some(Value::Bool(matches!(c, Some(Comparison::Greater))))
            },
            _ => None,
        }
    }

    /// Whether a number is less than another; `None` for anything else.
    pub fn less_than(&self, other: Value<N>) -> (r: Option<Value<N>>)
        ensures
            option_view(r) == self@.less_than(other@),
    {
        match (self, other) {
            (Value::Number(a), Value::Number(b)) => {
                let c = a.compare(b);
                Some(Value::Bool(matches!(c, Some(Comparison::Less))))
            },
            _ => None,
        }
    }

    /// Whether a number is greater than or equal to another; `None` for anything else.
    pub fn greater_equals(&self, other: Value<N>) -> (r: Option<Value<N>>)
        ensures
            option_view(r) == self@.greater_equals(other@),
    {
        match (self, other) {
            (Value::Number(a), Value::Number(b)) => {
                let c = a.compare(b);
                Some(
                    Value::Bool(
                        matches!(c, Some(Comparison::Greater)) || matches!(
                            c,
                            Some(Comparison::Equal)
                        ),
                    ),
                )
            },
            _ => None,
        }
    }

    /// Whether a number is less than or equal to another; `None` for anything else.
    pub fn less_equals(&self, other: Value<N>) -> (r: Option<Value<N>>)
        ensures
            option_view(r) == self@.less_equals(other@),
    {
        match (self, other) {
            (Value::Number(a), Value::Number(b)) => {
                let c = a.compare(b);
                Some(
                    Value::Bool(
                        matches!(c, Some(Comparison::Less)) || matches!(c, Some(Comparison::Equal)),
                    ),
                )
            },
            _ => None,
        }
    }

    /// The conjunction of two booleans; `None` for anything else.
    pub fn and(&self, other: Value<N>) -> (r: Option<Value<N>>)
        ensures
            option_view(r) == self@.and(other@),
    {
        match (self, other) {
            (Value::Bool(a), Value::Bool(b)) => Some(Value::Bool(*a && b)),
            _ => None,
        }
    }

    /// The disjunction of two booleans; `None` for anything else.
    pub fn or(&self, other: Value<N>) -> (r: Option<Value<N>>)
        ensures
            option_view(r) == self@.or(other@),
    {
        match (self, other) {
            (Value::Bool(a), Value::Bool(b)) => Some(Value::Bool(*a || b)),
            _ => None,
        }
    }
}

/// The kind of a [`ComputeError`]: what an observer of a cell can tell apart.
#[derive(PartialEq, Eq, Structural, Debug, Clone, Copy)]
pub enum ErrorKind {
    ParseError,
    TypeError,
    UnfindableReference,
    Cycle,
    UnknownFunction,
    InvalidArgument,
}

/// Why a cell has no value.  The texts are for display only.
#[derive(Debug, PartialEq, Clone)]
pub enum ComputeError {
    ParseError(String),
    TypeError(String),
    UnfindableReference(String),
    Cycle,
    UnknownFunction(String),
    InvalidArgument(String),
}

impl View for ComputeError {
    type V = ErrorKind;

    open spec fn view(&self) -> ErrorKind {
        match self {
            ComputeError::ParseError(_) => ErrorKind::ParseError,
            ComputeError::TypeError(_) => ErrorKind::TypeError,
            ComputeError::UnfindableReference(_) => ErrorKind::UnfindableReference,
            ComputeError::Cycle => ErrorKind::Cycle,
            ComputeError::UnknownFunction(_) => ErrorKind::UnknownFunction,
            ComputeError::InvalidArgument(_) => ErrorKind::InvalidArgument,
        }
    }
}

impl ComputeError {
    /// The text that tells a reader what went wrong.
    pub open spec fn info_text(self) -> Seq<char> {
        match self {
            ComputeError::ParseError(reason) => reason@,
            ComputeError::TypeError(message) => message@,
            ComputeError::UnfindableReference(message) => message@,
            ComputeError::Cycle => "Detected cyclic computation"@,
            ComputeError::UnknownFunction(f) => "Unknown function '"@ + f@ + "'"@,
            ComputeError::InvalidArgument(message) => message@,
        }
    }

    /// The text that tells a reader what went wrong.
    pub fn info(self) -> (r: String)
        ensures
            r@ == self.info_text(),
    {
        match self {
            ComputeError::ParseError(reason) => reason,
            ComputeError::TypeError(message) => message,
            ComputeError::UnfindableReference(message) => message,
            ComputeError::Cycle => "Detected cyclic computation".to_owned(),
            ComputeError::UnknownFunction(f) => {
                let mut text = "Unknown function '".to_owned();
                text.append(f.as_str());
                text.append("'");
                text
            },
            ComputeError::InvalidArgument(message) => message,
        }
    }

    /// The kind of the error.
    pub fn kind(&self) -> (r: ErrorKind)
        ensures
            r == self@,
    {
        match self {
            ComputeError::ParseError(_) => ErrorKind::ParseError,
            ComputeError::TypeError(_) => ErrorKind::TypeError,
            ComputeError::UnfindableReference(_) => ErrorKind::UnfindableReference,
            ComputeError::Cycle => ErrorKind::Cycle,
            ComputeError::UnknownFunction(_) => ErrorKind::UnknownFunction,
            ComputeError::InvalidArgument(_) => ErrorKind::InvalidArgument,
        }
    }

    /// A copy of the same kind and text.
    pub fn duplicate(&self) -> (r: Self)
        ensures
            r@ == self@,
    {
        match self {
            ComputeError::ParseError(s) => ComputeError::ParseError(s.clone()),
            ComputeError::TypeError(s) => ComputeError::TypeError(s.clone()),
            ComputeError::UnfindableReference(s) => ComputeError::UnfindableReference(s.clone()),
            ComputeError::Cycle => ComputeError::Cycle,
            ComputeError::UnknownFunction(s) => ComputeError::UnknownFunction(s.clone()),
            ComputeError::InvalidArgument(s) => ComputeError::InvalidArgument(s.clone()),
        }
    }
}

/// What evaluating a cell yields, as contracts see it.
pub type Outcome<N> = Result<ValueView<N>, ErrorKind>;

/// The view of a computed result.
pub open spec fn result_view<N: Numeric>(r: Result<Value<N>, ComputeError>) -> Outcome<N> {
    match r {
        Ok(v) => Ok(v@),
        Err(e) => Err(e@),
    }
}

/// The view of an optional computed result.
pub open spec fn lookup_view<N: Numeric>(r: Option<Result<Value<N>, ComputeError>>) -> Option<
    Outcome<N>,
> {
    match r {
        Some(r) => Some(result_view(r)),
        None => None,
    }
}

/// A copy of a computed result with the same view.
pub fn duplicate_result<N: Numeric>(r: &Result<Value<N>, ComputeError>) -> (c: Result<
    Value<N>,
    ComputeError,
>)
    ensures
        result_view(c) == result_view(*r),
{
    match r {
        Ok(v) => Ok(v.duplicate()),
        Err(e) => Err(e.duplicate()),
    }
}

/// A lexical unit of a formula.
#[derive(Debug, PartialEq, Clone)]
pub enum Token<N> {
    CellName(String),
    Number(N),
    Text(String),
    Bool(bool),
    FunctionName(String),
    ArgSeparator,
    RangeSep,
    LParen,
    RParen,
    Plus,
    Minus,
    Multiply,
    Division,
    Equals,
    NotEquals,
    GreaterThan,
    LessThan,
    GreaterEquals,
    LessEquals,
    And,
    Or,
    Not,
}

/// The mathematical view of a [`Token`].
pub enum TokenView<N> {
    CellName(Seq<char>),
    Number(N),
    Text(Seq<char>),
    Bool(bool),
    FunctionName(Seq<char>),
    ArgSeparator,
    RangeSep,
    LParen,
    RParen,
    Plus,
    Minus,
    Multiply,
    Division,
    Equals,
    NotEquals,
    GreaterThan,
    LessThan,
    GreaterEquals,
    LessEquals,
    And,
    Or,
    Not,
}

impl<N: Numeric> View for Token<N> {
    type V = TokenView<N>;

    open spec fn view(&self) -> TokenView<N> {
        match self {
            Token::CellName(s) => TokenView::CellName(s@),
            Token::Number(n) => TokenView::Number(*n),
            Token::Text(s) => TokenView::Text(s@),
            Token::Bool(b) => TokenView::Bool(*b),
            Token::FunctionName(s) => TokenView::FunctionName(s@),
            Token::ArgSeparator => TokenView::ArgSeparator,
            Token::RangeSep => TokenView::RangeSep,
            Token::LParen => TokenView::LParen,
            Token::RParen => TokenView::RParen,
            Token::Plus => TokenView::Plus,
            Token::Minus => TokenView::Minus,
            Token::Multiply => TokenView::Multiply,
            Token::Division => TokenView::Division,
            Token::Equals => TokenView::Equals,
            Token::NotEquals => TokenView::NotEquals,
            Token::GreaterThan => TokenView::GreaterThan,
            Token::LessThan => TokenView::LessThan,
            Token::GreaterEquals => TokenView::GreaterEquals,
            Token::LessEquals => TokenView::LessEquals,
            Token::And => TokenView::And,
            Token::Or => TokenView::Or,
            Token::Not => TokenView::Not,
        }
    }
}

impl<N: Numeric> TokenView<N> {
    /// The binding strength of an operator, from 1 (loosest) to 7; 0 for
    /// anything that is not an operator.
    pub open spec fn precedence(self) -> nat {
        match self {
            TokenView::Or => 1,
            TokenView::And => 2,
            TokenView::Equals | TokenView::NotEquals => 3,
            TokenView::GreaterThan
            | TokenView::LessThan
            | TokenView::GreaterEquals
            | TokenView::LessEquals => 4,
            TokenView::Plus | TokenView::Minus => 5,
            TokenView::Multiply | TokenView::Division => 6,
            TokenView::Not => 7,
            _ => 0,
        }
    }

    /// Whether the token is an operator that takes two operands.
    pub open spec fn is_binary_operator(self) -> bool {
        1 <= self.precedence() <= 6
    }
}

impl<N: Numeric> Token<N> {
    /// The binding strength of an operator, from 1 (loosest) to 7; 0 for
    /// anything that is not an operator.
    pub fn get_precedence(&self) -> (r: usize)
        ensures
            r == self@.precedence(),
    {
        match self {
            Token::Or => 1,
            Token::And => 2,
            Token::Equals | Token::NotEquals => 3,
            Token::GreaterThan | Token::LessThan | Token::GreaterEquals | Token::LessEquals => 4,
            Token::Plus | Token::Minus => 5,
            Token::Division | Token::Multiply => 6,
            Token::Not => 7,
            _ => 0,
        }
    }

    /// A copy with the same view.
    pub fn duplicate(&self) -> (r: Self)
        ensures
            r@ == self@,
    {
        match self {
            Token::CellName(s) => Token::CellName(s.clone()),
            Token::Number(n) => Token::Number(*n),
            Token::Text(s) => Token::Text(s.clone()),
            Token::Bool(b) => Token::Bool(*b),
            Token::FunctionName(s) => Token::FunctionName(s.clone()),
            Token::ArgSeparator => Token::ArgSeparator,
            Token::RangeSep => Token::RangeSep,
            Token::LParen => Token::LParen,
            Token::RParen => Token::RParen,
            Token::Plus => Token::Plus,
            Token::Minus => Token::Minus,
            Token::Multiply => Token::Multiply,
            Token::Division => Token::Division,
            Token::Equals => Token::Equals,
            Token::NotEquals => Token::NotEquals,
            Token::GreaterThan => Token::GreaterThan,
            Token::LessThan => Token::LessThan,
            Token::GreaterEquals => Token::GreaterEquals,
            Token::LessEquals => Token::LessEquals,
            Token::And => Token::And,
            Token::Or => Token::Or,
            Token::Not => Token::Not,
        }
    }
}

/// An expression tree.
#[derive(Debug, PartialEq)]
pub enum AST<N> {
    CellName(String),
    Value(Value<N>),
    BinaryOp { op: Token<N>, left: Box<AST<N>>, right: Box<AST<N>> },
    UnaryOp { op: Token<N>, expr: Box<AST<N>> },
    FunctionCall { name: String, arguments: Vec<AST<N>> },
    Range { from: String, to: String },
}

/// The mathematical view of an [`AST`].
pub enum Tree<N> {
    CellName(Seq<char>),
    Value(ValueView<N>),
    BinaryOp { op: TokenView<N>, left: Box<Tree<N>>, right: Box<Tree<N>> },
    UnaryOp { op: TokenView<N>, expr: Box<Tree<N>> },
    FunctionCall { name: Seq<char>, arguments: Seq<Tree<N>> },
    Range { from: Seq<char>, to: Seq<char> },
}

impl<N: Numeric> AST<N> {
    /// The tree that this value stands for.
    pub open spec fn tree(self) -> Tree<N>
        decreases self,
    {
        match self {
            AST::CellName(name) => Tree::CellName(name@),
            AST::Value(v) => Tree::Value(v@),
            AST::BinaryOp { op, left, right } => Tree::BinaryOp {
                op: op@,
                left: Box::new(left.tree()),
                right: Box::new(right.tree()),
            },
            AST::UnaryOp { op, expr } => Tree::UnaryOp { op: op@, expr: Box::new(expr.tree()) },
            AST::FunctionCall { name, arguments } => Tree::FunctionCall {
                name: name@,
                arguments: Seq::new(
                    arguments@.len(),
                    |i: int|
                        if 0 <= i < arguments@.len() {
                            arguments@[i].tree()
                        } else {
                            Tree::CellName(Seq::empty())
                        },
                ),
            },
            AST::Range { from, to } => Tree::Range { from: from@, to: to@ },
        }
    }
}

impl<N: Numeric> View for AST<N> {
    type V = Tree<N>;

    open spec fn view(&self) -> Tree<N> {
        self.tree()
    }
}

/// A formula: its tree and the cells it refers to, each once.
#[derive(Debug)]
pub struct Expression<N> {
    pub ast: AST<N>,
    pub dependencies: Vec<Index>,
}

/// The reason a raw cell text could not be read.
#[derive(Debug, PartialEq, Clone)]
pub struct ParseError(pub String);

/// What a raw cell text was read as.
#[derive(Debug)]
pub enum ParsedCell<N> {
    Text(String),
    Number(N),
    Bool(bool),
    Expr(Expression<N>),
}

/// The mathematical view of a [`ParsedCell`].
pub enum ParsedView<N> {
    Text(Seq<char>),
    Number(N),
    Bool(bool),
    Expr { tree: Tree<N>, dependencies: Seq<Index> },
}

impl<N: Numeric> View for ParsedCell<N> {
    type V = ParsedView<N>;

    open spec fn view(&self) -> ParsedView<N> {
        match self {
            ParsedCell::Text(s) => ParsedView::Text(s@),
            ParsedCell::Number(n) => ParsedView::Number(*n),
            ParsedCell::Bool(b) => ParsedView::Bool(*b),
            ParsedCell::Expr(e) => ParsedView::Expr { tree: e.ast@, dependencies: e.dependencies@ },
        }
    }
}

/// The view of the outcome of reading a cell: `None` where reading failed.
pub open spec fn parsed_view<N: Numeric>(p: Result<ParsedCell<N>, ParseError>) -> Option<
    ParsedView<N>,
> {
    match p {
        Ok(p) => Some(p@),
        Err(_) => None,
    }
}

/// A cell: its raw text, what it was read as, and what it evaluates to.
#[derive(Debug)]
pub struct Cell<N> {
    pub raw_representation: String,
    pub parsed_representation: Option<Result<ParsedCell<N>, ParseError>>,
    pub computed_value: Option<Result<Value<N>, ComputeError>>,
}

impl<N: Numeric> Cell<N> {
    /// A cell that holds `raw` and has been neither read nor evaluated.
    pub fn from_raw(raw: String) -> (r: Self)
        ensures
            r.raw_representation == raw,
            r.parsed_representation is None,
            r.computed_value is None,
    {
        Self { raw_representation: raw, parsed_representation: None, computed_value: None }
    }
}

} // verus!
