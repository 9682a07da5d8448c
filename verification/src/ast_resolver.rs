//! The evaluator: the value of an expression tree in an environment that
//! gives the computed results of other cells.

use crate::builtin_functions::{builtin_of, get_func, values_view};
use crate::common_functions::cell_index;
use crate::common_types::{
    lookup_view, result_view, ComputeError, ErrorKind, Index, Numeric, Outcome, Token, TokenView,
    Tree, Value, ValueView, AST,
};
use vstd::prelude::*;

verus! {

/// What the cells of a sheet evaluate to: a result for each cell that has
/// one.
pub type Environment<N> = Map<Index, Outcome<N>>;

/// A source of the computed results of cells.
///
/// A sheet is such a source.  Any other source names in `variable` what it
/// gives for each cell and gives in `get_variable` what it has named.
pub trait VarContext<N: Numeric> {
    /// The computed result of the cell at `index`, if the cell has one.
    spec fn variable(&self, index: Index) -> Option<Result<Value<N>, ComputeError>>;

    /// The computed result of the cell at `index`: what [`VarContext::variable`] names.
    fn get_variable(&self, index: Index) -> (r: Option<Result<Value<N>, ComputeError>>)
        ensures
            lookup_view(r) == lookup_view(self.variable(index)),
    ;
}

/// The environment that a context stands for.
pub open spec fn environment<N: Numeric, C: VarContext<N> + ?Sized>(context: &C) -> Environment<N> {
    Map::new(
        |i: Index| context.variable(i) is Some,
        |i: Index| result_view(context.variable(i)->0),
    )
}

/// A value, or a type error where there is none.
pub open spec fn typed<N: Numeric>(v: Option<ValueView<N>>) -> Outcome<N> {
    match v {
        Some(v) => Ok(v),
        None => Err(ErrorKind::TypeError),
    }
}

/// The result of a binary operator on two values.
pub open spec fn apply_binary<N: Numeric>(
    op: TokenView<N>,
    left: ValueView<N>,
    right: ValueView<N>,
) -> Outcome<N> {
    match op {
        TokenView::Plus => typed(left.sum(right)),
        TokenView::Minus => typed(left.difference(right)),
        TokenView::Multiply => typed(left.product(right)),
        TokenView::Division => typed(left.quotient(right)),
        TokenView::Equals => Ok(ValueView::Bool(left.same(right))),
        TokenView::NotEquals => Ok(ValueView::Bool(!left.same(right))),
        TokenView::GreaterThan => typed(left.greater_than(right)),
        TokenView::LessThan => typed(left.less_than(right)),
        TokenView::GreaterEquals => typed(left.greater_equals(right)),
        TokenView::LessEquals => typed(left.less_equals(right)),
        TokenView::And => typed(left.and(right)),
        TokenView::Or => typed(left.or(right)),
        _ => Err(ErrorKind::TypeError),
    }
}

/// The cells of column `x` from row `from` to row `to`, both included.
pub open spec fn column_cells(x: usize, from: usize, to: usize) -> Seq<Index> {
    if from <= to {
        Seq::new((to - from + 1) as nat, |k: int| Index { x, y: (from + k) as usize })
    } else {
        Seq::empty()
    }
}

/// The cells of the first `count` columns of a rectangle that starts at
/// `start` and ends at `end`, column by column.
pub open spec fn rectangle_columns(start: Index, end: Index, count: nat) -> Seq<Index>
    decreases count,
{
    if count == 0 {
        Seq::empty()
    } else {
        rectangle_columns(start, end, (count - 1) as nat) + column_cells(
            (start.x + count - 1) as usize,
            start.y,
            end.y,
        )
    }
}

/// The coordinate of a range's corner; a name that names no cell stands for
/// the first cell.
pub open spec fn corner(name: Seq<char>) -> Index {
    match cell_index(name) {
        Some(i) => i,
        None => Index { x: 0, y: 0 },
    }
}

/// The cells of the rectangle between two corners, column by column and
/// within a column from the top down.  It is empty where the second corner
/// lies left of or above the first.
pub open spec fn range_cells(from: Seq<char>, to: Seq<char>) -> Seq<Index> {
    let start = corner(from);
    let end = corner(to);
    if start.x <= end.x {
        rectangle_columns(start, end, (end.x - start.x + 1) as nat)
    } else {
        Seq::empty()
    }
}

/// The values of the given cells: a cell without a result is left out, the
/// first cell whose result is an error ends the walk with that error.
pub open spec fn cells_values<N: Numeric>(cells: Seq<Index>, env: Environment<N>) -> Result<
    Seq<ValueView<N>>,
    ErrorKind,
>
    decreases cells.len(),
{
    if cells.len() == 0 {
        Ok(Seq::empty())
    } else {
        match cells_values(cells.drop_last(), env) {
            Err(e) => Err(e),
            Ok(values) => {
                if env.contains_key(cells.last()) {
                    match env[cells.last()] {
                        Ok(v) => Ok(values.push(v)),
                        Err(e) => Err(e),
                    }
                } else {
                    Ok(values)
                }
            },
        }
    }
}

/// All the values of the parts, in order, or the first error among them.
pub open spec fn gather<N: Numeric>(parts: Seq<Result<Seq<ValueView<N>>, ErrorKind>>) -> Result<
    Seq<ValueView<N>>,
    ErrorKind,
>
    decreases parts.len(),
{
    if parts.len() == 0 {
        Ok(Seq::empty())
    } else {
        match gather(parts.drop_last()) {
            Err(e) => Err(e),
            Ok(values) => match parts.last() {
                Ok(more) => Ok(values + more),
                Err(e) => Err(e),
            },
        }
    }
}

impl<N: Numeric> Tree<N> {
    /// Whether every binary node of the tree holds a binary operator.
    pub open spec fn well_formed(self) -> bool
        decreases self,
    {
        match self {
            Tree::BinaryOp { op, left, right } => op.is_binary_operator() && left.well_formed()
                && right.well_formed(),
            Tree::UnaryOp { op, expr } => expr.well_formed(),
            Tree::FunctionCall { name, arguments } => forall|i: int|
                0 <= i < arguments.len() ==> (#[trigger] arguments[i]).well_formed(),
            _ => true,
        }
    }

    /// What the tree evaluates to in an environment.
    ///
    /// A cell name gives the result of its cell.  An operator first takes
    /// the value of its left, then of its right operand; the first error
    /// among them is the result.  A call takes the values of its arguments
    /// from left to right, a range giving the values of its cells, and hands
    /// them to the function of that name.
    pub open spec fn resolve(self, env: Environment<N>) -> Outcome<N>
        decreases self, 1nat,
    {
        match self {
            Tree::Value(v) => Ok(v),
            Tree::CellName(name) => match cell_index(name) {
                None => Err(ErrorKind::ParseError),
                Some(i) => if env.contains_key(i) {
                    env[i]
                } else {
                    Err(ErrorKind::UnfindableReference)
                },
            },
            Tree::BinaryOp { op, left, right } => match left.resolve(env) {
                Err(e) => Err(e),
                Ok(l) => match right.resolve(env) {
                    Err(e) => Err(e),
                    Ok(r) => apply_binary(op, l, r),
                },
            },
            Tree::UnaryOp { op, expr } => match expr.resolve(env) {
                Err(e) => Err(e),
                Ok(ValueView::Bool(b)) => Ok(ValueView::Bool(!b)),
                Ok(_) => Err(ErrorKind::TypeError),
            },
            Tree::Range { from, to } => Err(ErrorKind::TypeError),
            Tree::FunctionCall { name, arguments } => match gather(self.parts(env)) {
                Err(e) => Err(e),
                Ok(values) => match builtin_of(name) {
                    Some(function) => function.apply(values),
                    None => Err(ErrorKind::UnknownFunction),
                },
            },
        }
    }

    /// For each argument of a call, the values that it contributes: those
    /// of its cells for a range, its own value for anything else.
    pub open spec fn parts(self, env: Environment<N>) -> Seq<Result<Seq<ValueView<N>>, ErrorKind>>
        decreases self, 0nat,
    {
        match self {
            Tree::FunctionCall { name, arguments } => Seq::new(
                arguments.len(),
                |i: int|
                    if 0 <= i < arguments.len() {
                        match arguments[i] {
                            Tree::Range { from, to } => cells_values(range_cells(from, to), env),
                            _ => match arguments[i].resolve(env) {
                                Ok(v) => Ok(seq![v]),
                                Err(e) => Err(e),
                            },
                        }
                    } else {
                        Ok(Seq::empty())
                    },
            ),
            _ => Seq::empty(),
        }
    }

    /// The values that an argument of a call contributes.
    pub open spec fn argument(self, env: Environment<N>) -> Result<Seq<ValueView<N>>, ErrorKind> {
        match self {
            Tree::Range { from, to } => cells_values(range_cells(from, to), env),
            _ => match self.resolve(env) {
                Ok(v) => Ok(seq![v]),
                Err(e) => Err(e),
            },
        }
    }
}

/// Once gathering has met an error, more parts do not change it.
proof fn lemma_gather_fails<N: Numeric>(parts: Seq<Result<Seq<ValueView<N>>, ErrorKind>>, k: int)
    requires
        0 <= k <= parts.len(),
        gather(parts.subrange(0, k)) is Err,
    ensures
        gather(parts) == gather(parts.subrange(0, k)),
    decreases parts.len() - k,
{
    if k == parts.len() {
        assert(parts.subrange(0, k) == parts);
    } else {
        let longer = parts.subrange(0, k + 1);
        assert(longer.drop_last() == parts.subrange(0, k));
        lemma_gather_fails(parts, k + 1);
    }
}

/// Once the walk over cells has met an error, more cells do not change it.
proof fn lemma_cells_values_fails<N: Numeric>(cells: Seq<Index>, env: Environment<N>, k: int)
    requires
        0 <= k <= cells.len(),
        cells_values(cells.subrange(0, k), env) is Err,
    ensures
        cells_values(cells, env) == cells_values(cells.subrange(0, k), env),
    decreases cells.len() - k,
{
    if k == cells.len() {
        assert(cells.subrange(0, k) == cells);
    } else {
        let longer = cells.subrange(0, k + 1);
        assert(longer.drop_last() == cells.subrange(0, k));
        lemma_cells_values_fails(cells, env, k + 1);
    }
}

/// What the environment of a context holds for a cell.
proof fn lemma_environment<N: Numeric, C: VarContext<N> + ?Sized>(context: &C, i: Index)
    ensures
        environment(context).contains_key(i) == (context.variable(i) is Some),
        context.variable(i) is Some ==> environment(context)[i] == result_view(
            context.variable(i)->0,
        ),
{
}

/// A type error with the given text.
fn type_error<N: Numeric>(message: &str) -> (r: Result<Value<N>, ComputeError>)
    ensures
        result_view(r) == Err::<ValueView<N>, ErrorKind>(ErrorKind::TypeError),
{
    Err(ComputeError::TypeError(message.to_owned()))
}

/// The value, or a type error with the given text where there is none.
fn or_type_error<N: Numeric>(v: Option<Value<N>>, message: &str) -> (r: Result<
    Value<N>,
    ComputeError,
>)
    ensures
        result_view(r) == typed(
            match v {
                Some(v) => Some(v@),
                None => None,
            },
        ),
{
    match v {
        Some(v) => Ok(v),
        None => type_error(message),
    }
}

/// The evaluator of expression trees.
pub struct ASTResolver {}

impl ASTResolver {
    /// Evaluates a tree against the results that `variables` gives.
    pub fn resolve<N: Numeric, C: VarContext<N> + ?Sized>(ast: &AST<N>, variables: &C) -> (r: Result<
        Value<N>,
        ComputeError,
    >)
        requires
            ast@.well_formed(),
        ensures
            result_view(r) == ast@.resolve(environment(variables)),
        decreases ast,
    {
        let ghost env = environment(variables);
        match ast {
            AST::Value(value) => Ok(value.duplicate()),
            AST::CellName(name) => {
                match Self::get_cell_idx(name.as_str()) {
                    None => Err(ComputeError::ParseError("Invalid cell name".to_owned())),
                    Some(index) => match {
                    proof {
                        lemma_environment(variables, index);
                    }
                    variables.get_variable(index)
                } {
                        Some(value) => value,
                        None => Err(
                            ComputeError::UnfindableReference(
                                "Could not find the cell in the context".to_owned(),
                            ),
                        ),
                    },
                }
            },
            AST::BinaryOp { op, left, right } => {
                let left_resolved = match Self::resolve(left, variables) {
                    Ok(v) => v,
                    Err(e) => {
                        return Err(e);
                    },
                };
                let right_resolved = match Self::resolve(right, variables) {
                    Ok(v) => v,
                    Err(e) => {
                        return Err(e);
                    },
                };
                Self::apply(op, left_resolved, right_resolved)
            },
            AST::Range { from: _, to: _ } => type_error(
                "Ranges can only appear as function arguments",
            ),
            AST::FunctionCall { name, arguments } => {
                let ghost parts = ast@.parts(env);
                let ghost expected = ast@.resolve(env);
                proof {
                    assert(parts.subrange(0, 0) =~= Seq::empty());
                    assert forall|k: int| 0 <= k < arguments@.len() implies #[trigger] parts[k]
                        == arguments@[k]@.argument(env) by {
                        assert(ast@->FunctionCall_arguments[k] == arguments@[k]@);
                    }
                }
                let mut resolved_args: Vec<Value<N>> = Vec::new();
                assert(values_view(resolved_args@) =~= Seq::<ValueView<N>>::empty());
                let mut i: usize = 0;
                while i < arguments.len()
                    invariant
                        i <= arguments.len(),
                        ast@.well_formed(),
                        ast == (AST::FunctionCall { name: *name, arguments: *arguments }),
                        env == environment(variables),
                        parts.len() == arguments@.len(),
                        forall|k: int|
                            0 <= k < arguments@.len() ==> #[trigger] parts[k]
                                == arguments@[k]@.argument(env),
                        expected == ast@.resolve(env),
                        expected == (match gather(parts) {
                            Err(e) => Err(e),
                            Ok(values) => match builtin_of(name@) {
                                Some(function) => function.apply(values),
                                None => Err(ErrorKind::UnknownFunction),
                            },
                        }),
                        gather(parts.subrange(0, i as int)) == Ok::<Seq<ValueView<N>>, ErrorKind>(
                            values_view(resolved_args@),
                        ),
                    decreases arguments.len() - i,
                {
                    let ghost before = values_view(resolved_args@);
                    proof {
                        let longer = parts.subrange(0, i as int + 1);
                        assert(longer.drop_last() == parts.subrange(0, i as int));
                        assert(longer.last() == parts[i as int]);
                        assert(ast@->FunctionCall_arguments[i as int] == arguments@[i as int]@);
                        assert(arguments@[i as int]@.well_formed());
                    }
                    match &arguments[i] {
                        AST::Range { from, to } => {
                            match Self::range_values(from.as_str(), to.as_str(), variables) {
                                Ok(values) => {
                                    let mut values = values;
                                    let ghost more = values_view(values@);
                                    resolved_args.append(&mut values);
                                    assert(values_view(resolved_args@) =~= before + more);
                                },
                                Err(e) => {
                                    proof {
                                        lemma_gather_fails(parts, i as int + 1);
                                    }
                                    return Err(e);
                                },
                            }
                        },
                        argument => {
                            match Self::resolve(argument, variables) {
                                Ok(v) => {
                                    resolved_args.push(v);
                                    assert(values_view(resolved_args@) =~= before + seq![v@]);
                                },
                                Err(e) => {
                                    proof {
                                        lemma_gather_fails(parts, i as int + 1);
                                    }
                                    return Err(e);
                                },
                            }
                        },
                    }
                    i = i + 1;
                }
                assert(parts.subrange(0, i as int) == parts);
                match get_func(name.as_str()) {
                    Some(func) => func.call(resolved_args),
                    None => Err(ComputeError::UnknownFunction(name.clone())),
                }
            },
            AST::UnaryOp { op, expr } => {
                match Self::resolve(expr, variables) {
                    Ok(Value::Bool(boolean)) => Ok(Value::Bool(!boolean)),
                    Ok(_) => type_error("Not(!) operator can only work on boolean expressions"),
                    Err(e) => Err(e),
                }
            },
        }
    }

    /// Applies a binary operator to two values.
    pub fn apply<N: Numeric>(op: &Token<N>, left: Value<N>, right: Value<N>) -> (r: Result<
        Value<N>,
        ComputeError,
    >)
        requires
            op@.is_binary_operator(),
        ensures
            result_view(r) == apply_binary(op@, left@, right@),
    {
        match op {
            Token::Plus => or_type_error(
                left.add(right),
                "Addition requires two numeric values",
            ),
            Token::Minus => or_type_error(
                left.sub(right),
                "Subtraction requires two numeric values",
            ),
            Token::Division => or_type_error(
                left.div(right),
                "Division requires two numeric values",
            ),
            Token::Multiply => or_type_error(
                left.mult(right),
                "Multiplication requires two numeric values",
            ),
            Token::Equals => Ok(Value::Bool(left.equals(&right))),
            Token::NotEquals => Ok(Value::Bool(!left.equals(&right))),
            Token::GreaterThan => or_type_error(
                left.greater_than(right),
                "Greater than comparison requires two numeric values",
            ),
            Token::LessThan => or_type_error(
                left.less_than(right),
                "Less than comparison requires two numeric values",
            ),
            Token::GreaterEquals => or_type_error(
                left.greater_equals(right),
                "Greater or equal comparison requires two numeric values",
            ),
            Token::LessEquals => or_type_error(
                left.less_equals(right),
                "Less or equal comparison requires two numeric values",
            ),
            Token::And => or_type_error(
                left.and(right),
                "Logical AND requires two boolean values",
            ),
            Token::Or => or_type_error(left.or(right), "Logical OR requires two boolean values"),
            _ => type_error("not a binary operator"),
        }
    }

    /// The values of the cells of a range, see [`cells_values`].
    pub fn range_values<N: Numeric, C: VarContext<N> + ?Sized>(from: &str, to: &str, variables: &C) -> (r:
        Result<Vec<Value<N>>, ComputeError>)
        ensures
            match cells_values(range_cells(from@, to@), environment(variables)) {
                Ok(values) => r is Ok && values_view(r->Ok_0@) == values,
                Err(e) => r is Err && r->Err_0@ == e,
            },
    {
        let ghost env = environment(variables);
        let cells = Self::range_to_indeces(from, to);
        let mut values: Vec<Value<N>> = Vec::new();
        let mut i: usize = 0;
        proof {
            assert(cells@.subrange(0, 0) =~= Seq::<Index>::empty());
            assert(values_view(values@) =~= Seq::<ValueView<N>>::empty());
        }
        while i < cells.len()
            invariant
                i <= cells.len(),
                env == environment(variables),
                cells@ == range_cells(from@, to@),
                cells_values(cells@.subrange(0, i as int), env) == Ok::<
                    Seq<ValueView<N>>,
                    ErrorKind,
                >(values_view(values@)),
            decreases cells.len() - i,
        {
            let ghost before = values_view(values@);
            proof {
                let longer = cells@.subrange(0, i as int + 1);
                assert(longer.drop_last() == cells@.subrange(0, i as int));
                assert(longer.last() == cells[i as int]);
                lemma_environment(variables, cells[i as int]);
            }
            match variables.get_variable(cells[i]) {
                Some(Ok(v)) => {
                    values.push(v);
                    assert(values_view(values@) =~= before.push(v@));
                },
                Some(Err(e)) => {
                    proof {
                        lemma_cells_values_fails(cells@, env, i as int + 1);
                    }
                    return Err(e);
                },
                None => {},
            }
            i = i + 1;
        }
        assert(cells@.subrange(0, i as int) == cells@);
        Ok(values)
    }

    /// Reads a cell name as a coordinate.
    pub fn get_cell_idx(cell_name: &str) -> (r: Option<Index>)
        ensures
            r == cell_index(cell_name@),
    {
        crate::common_functions::get_cell_idx(cell_name)
    }

    /// The cells of the rectangle between two corners, see [`range_cells`].
    pub fn range_to_indeces(from: &str, to: &str) -> (r: Vec<Index>)
        ensures
            r@ == range_cells(from@, to@),
    {
        let start = match Self::get_cell_idx(from) {
            Some(i) => i,
            None => Index { x: 0, y: 0 },
        };
        let end = match Self::get_cell_idx(to) {
            Some(i) => i,
            None => Index { x: 0, y: 0 },
        };
        let mut indices: Vec<Index> = Vec::new();
        if start.x > end.x {
            return indices;
        }
        let mut x = start.x;
        loop
            invariant_except_break
                indices@ == rectangle_columns(start, end, (x - start.x) as nat),
            invariant
                start.x <= x <= end.x,
            ensures
                indices@ == rectangle_columns(start, end, (end.x - start.x + 1) as nat),
            decreases end.x - x,
        {
            let ghost before = indices@;
            if start.y <= end.y {
                let mut y = start.y;
                loop
                    invariant_except_break
                        indices@ == before + column_cells(x, start.y, end.y).subrange(
                            0,
                            y - start.y,
                        ),
                    invariant
                        start.y <= y <= end.y,
                    ensures
                        indices@ == before + column_cells(x, start.y, end.y),
                    decreases end.y - y,
                {
                    indices.push(Index { x, y });
                    assert(indices@ =~= before + column_cells(x, start.y, end.y).subrange(
                        0,
                        y - start.y + 1,
                    ));
                    if y == end.y {
                        assert(column_cells(x, start.y, end.y).subrange(0, y - start.y + 1)
                            == column_cells(x, start.y, end.y));
                        break ;
                    }
                    y = y + 1;
                }
            } else {
                assert(indices@ =~= before + column_cells(x, start.y, end.y));
            }
            if x == end.x {
                break ;
            }
            x = x + 1;
        }
        indices
    }
}

} // verus!
