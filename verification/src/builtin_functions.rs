//! The built-in functions of formulas: `sum`, `avg`, `min`, `max`, `count`
//! and `if`.  A function takes the values of its arguments, ranges already
//! flattened, and gives a value or an error.

use crate::common_types::{
    result_view, Comparison, ComputeError, Decimal, ErrorKind, Numeric, Outcome, Value, ValueView,
};
use crate::text::chars_of;
use vstd::prelude::*;

verus! {

/// A built-in function.
#[derive(PartialEq, Eq, Structural, Debug, Clone, Copy)]
pub enum Builtin {
    Sum,
    Avg,
    Min,
    Max,
    Count,
    If,
}

/// The lower-case form of an ASCII letter; any other character is itself.
pub open spec fn lower_case(c: char) -> char {
    if 'A' <= c <= 'Z' {
        ((c as int) + 32) as char
    } else {
        c
    }
}

/// Whether `name`, letter case aside, is the three-letter word `a b c`.
pub open spec fn spells3(name: Seq<char>, a: char, b: char, c: char) -> bool {
    name.len() == 3 && lower_case(name[0]) == a && lower_case(name[1]) == b && lower_case(name[2])
        == c
}

/// The function that a name stands for, whatever the case of its letters.
pub open spec fn builtin_of(name: Seq<char>) -> Option<Builtin> {
    if spells3(name, 's', 'u', 'm') {
        Some(Builtin::Sum)
    } else if spells3(name, 'a', 'v', 'g') {
        Some(Builtin::Avg)
    } else if spells3(name, 'm', 'i', 'n') {
        Some(Builtin::Min)
    } else if spells3(name, 'm', 'a', 'x') {
        Some(Builtin::Max)
    } else if name.len() == 5 && lower_case(name[0]) == 'c' && lower_case(name[1]) == 'o'
        && lower_case(name[2]) == 'u' && lower_case(name[3]) == 'n' && lower_case(name[4]) == 't' {
        Some(Builtin::Count)
    } else if name.len() == 2 && lower_case(name[0]) == 'i' && lower_case(name[1]) == 'f' {
        Some(Builtin::If)
    } else {
        None
    }
}

/// The lower-case form of an ASCII letter.
fn lower(c: char) -> (r: char)
    ensures
        r == lower_case(c),
{
    if 'A' <= c && c <= 'Z' {
        ((c as u8) + 32) as char
    } else {
        c
    }
}

/// Looks a function up by its name; the case of the letters does not count.
pub fn get_func(name: &str) -> (r: Option<Builtin>)
    ensures
        r == builtin_of(name@),
{
    let chars = chars_of(name);
    let n = chars.len();
    if n == 3 {
        let a = lower(chars[0]);
        let b = lower(chars[1]);
        let c = lower(chars[2]);
        if a == 's' && b == 'u' && c == 'm' {
            Some(Builtin::Sum)
        } else if a == 'a' && b == 'v' && c == 'g' {
            Some(Builtin::Avg)
        } else if a == 'm' && b == 'i' && c == 'n' {
            Some(Builtin::Min)
        } else if a == 'm' && b == 'a' && c == 'x' {
            Some(Builtin::Max)
        } else {
            None
        }
    } else if n == 5 {
        if lower(chars[0]) == 'c' && lower(chars[1]) == 'o' && lower(chars[2]) == 'u' && lower(
            chars[3],
        ) == 'n' && lower(chars[4]) == 't' {
            Some(Builtin::Count)
        } else {
            None
        }
    } else if n == 2 {
        if lower(chars[0]) == 'i' && lower(chars[1]) == 'f' {
            Some(Builtin::If)
        } else {
            None
        }
    } else {
        None
    }
}

/// The number zero.
pub open spec fn zero<N: Numeric>() -> N {
    N::decimal(Decimal { negative: false, mantissa: 0, exponent: 0 })
}

/// The number of a count.
pub open spec fn counted<N: Numeric>(n: nat) -> N {
    N::decimal(Decimal { negative: false, mantissa: n as u128, exponent: 0 })
}

/// The sum of the values, added to zero from the first on; `None` where one
/// of them is no number.
pub open spec fn total<N: Numeric>(values: Seq<ValueView<N>>) -> Option<N>
    decreases values.len(),
{
    if values.len() == 0 {
        Some(zero())
    } else {
        match (total(values.drop_last()), values.last()) {
            (Some(t), ValueView::Number(x)) => Some(t.sum(x)),
            _ => None,
        }
    }
}

/// The value that wins against all others: each value takes the place of
/// the winner so far where it stands to it as `wanted`.  `None` where there
/// is no value or one of them is no number.
pub open spec fn extreme<N: Numeric>(values: Seq<ValueView<N>>, wanted: Comparison) -> Option<N>
    decreases values.len(),
{
    if values.len() == 0 {
        None
    } else if values.len() == 1 {
        match values[0] {
            ValueView::Number(x) => Some(x),
            _ => None,
        }
    } else {
        match (extreme(values.drop_last(), wanted), values.last()) {
            (Some(best), ValueView::Number(x)) => Some(
                if x.ordering(best) == Some(wanted) {
                    x
                } else {
                    best
                },
            ),
            _ => None,
        }
    }
}

/// The number as a value, or an invalid argument where there is none.
pub open spec fn number_or_invalid<N: Numeric>(n: Option<N>) -> Outcome<N> {
    match n {
        Some(n) => Ok(ValueView::Number(n)),
        None => Err(ErrorKind::InvalidArgument),
    }
}

impl Builtin {
    /// What the function gives for the values of its arguments.
    pub open spec fn apply<N: Numeric>(self, values: Seq<ValueView<N>>) -> Outcome<N> {
        match self {
            Builtin::Sum => number_or_invalid(total(values)),
            Builtin::Avg => match total(values) {
                Some(t) if values.len() > 0 => Ok(
                    ValueView::Number(t.quotient(counted(values.len()))),
                ),
                _ => Err(ErrorKind::InvalidArgument),
            },
            Builtin::Min => number_or_invalid(extreme(values, Comparison::Less)),
            Builtin::Max => number_or_invalid(extreme(values, Comparison::Greater)),
            Builtin::Count => Ok(ValueView::Number(counted(values.len()))),
            Builtin::If => if values.len() != 3 {
                Err(ErrorKind::InvalidArgument)
            } else {
                match values[0] {
                    ValueView::Bool(c) => Ok(
                        if c {
                            values[1]
                        } else {
                            values[2]
                        },
                    ),
                    _ => Err(ErrorKind::TypeError),
                }
            },
        }
    }

    /// Calls the function on the values of its arguments.
    pub fn call<N: Numeric>(self, args: Vec<Value<N>>) -> (r: Result<Value<N>, ComputeError>)
        ensures
            result_view(r) == self.apply(values_view(args@)),
    {
        match self {
            Builtin::Sum => sum(args),
            Builtin::Avg => avg(args),
            Builtin::Min => min(args),
            Builtin::Max => max(args),
            Builtin::Count => count(args),
            Builtin::If => if_else(args),
        }
    }
}

/// The views of a sequence of values.
pub open spec fn values_view<N: Numeric>(values: Seq<Value<N>>) -> Seq<ValueView<N>> {
    Seq::new(values.len(), |i: int| values[i]@)
}

/// The number of a count.
fn count_of<N: Numeric>(n: usize) -> (r: N)
    ensures
        r == counted::<N>(n as nat),
{
    N::from_decimal(Decimal { negative: false, mantissa: n as u128, exponent: 0 })
}

/// The sum of the arguments, or `None` where one of them is no number.
fn total_of<N: Numeric>(args: &Vec<Value<N>>) -> (r: Option<N>)
    ensures
        r == total(values_view(args@)),
{
    let ghost values = values_view(args@);
    let mut t: N = N::from_decimal(Decimal { negative: false, mantissa: 0, exponent: 0 });
    let mut i: usize = 0;
    assert(values.subrange(0, 0) =~= Seq::<ValueView<N>>::empty());
    while i < args.len()
        invariant
            i <= args.len(),
            values == values_view(args@),
            total(values.subrange(0, i as int)) == Some(t),
        decreases args.len() - i,
    {
        proof {
            let longer = values.subrange(0, i as int + 1);
            assert(longer.drop_last() == values.subrange(0, i as int));
            assert(longer.last() == args[i as int]@);
        }
        match &args[i] {
            Value::Number(x) => {
                t = t.plus(*x);
            },
            _ => {
                proof {
                    lemma_total_fails(values, i as int + 1);
                }
                return None;
            },
        }
        i = i + 1;
    }
    assert(values.subrange(0, i as int) == values);
    Some(t)
}

/// Once a value that is no number has been met, the sum is undefined.
proof fn lemma_total_fails<N: Numeric>(values: Seq<ValueView<N>>, k: int)
    requires
        0 <= k <= values.len(),
        total(values.subrange(0, k)) is None,
    ensures
        total(values) is None,
    decreases values.len() - k,
{
    if k == values.len() {
        assert(values.subrange(0, k) == values);
    } else {
        let longer = values.subrange(0, k + 1);
        assert(longer.drop_last() == values.subrange(0, k));
        lemma_total_fails(values, k + 1);
    }
}

/// Once a value that is no number has been met, no value wins.
proof fn lemma_extreme_fails<N: Numeric>(values: Seq<ValueView<N>>, wanted: Comparison, k: int)
    requires
        1 <= k <= values.len(),
        extreme(values.subrange(0, k), wanted) is None,
    ensures
        extreme(values, wanted) is None,
    decreases values.len() - k,
{
    if k == values.len() {
        assert(values.subrange(0, k) == values);
    } else {
        let longer = values.subrange(0, k + 1);
        assert(longer.drop_last() == values.subrange(0, k));
        lemma_extreme_fails(values, wanted, k + 1);
    }
}

/// The argument that wins against all others, see [`extreme`].
fn extreme_of<N: Numeric>(args: &Vec<Value<N>>, wanted: Comparison) -> (r: Option<N>)
    ensures
        r == extreme(values_view(args@), wanted),
{
    let ghost values = values_view(args@);
    if args.len() == 0 {
        return None;
    }
    let mut best: N = match &args[0] {
        Value::Number(x) => *x,
        _ => {
            proof {
                assert(values.subrange(0, 1)[0] == values[0]);
                lemma_extreme_fails(values, wanted, 1);
            }
            return None;
        },
    };
    let mut i: usize = 1;
    assert(values.subrange(0, 1)[0] == values[0]);
    while i < args.len()
        invariant
            1 <= i <= args.len(),
            values == values_view(args@),
            extreme(values.subrange(0, i as int), wanted) == Some(best),
        decreases args.len() - i,
    {
        proof {
            let longer = values.subrange(0, i as int + 1);
            assert(longer.drop_last() == values.subrange(0, i as int));
            assert(longer.last() == args[i as int]@);
        }
        match &args[i] {
            Value::Number(x) => {
                let c = x.compare(best);
                let wins = match (c, wanted) {
                    (Some(Comparison::Less), Comparison::Less) => true,
                    (Some(Comparison::Equal), Comparison::Equal) => true,
                    (Some(Comparison::Greater), Comparison::Greater) => true,
                    _ => false,
                };
                if wins {
                    best = *x;
                }
            },
            _ => {
                proof {
                    lemma_extreme_fails(values, wanted, i as int + 1);
                }
                return None;
            },
        }
        i = i + 1;
    }
    assert(values.subrange(0, i as int) == values);
    Some(best)
}

/// An invalid argument with the given text.
fn invalid<N: Numeric>(message: &str) -> (r: Result<Value<N>, ComputeError>)
    ensures
        result_view(r) == Err::<ValueView<N>, ErrorKind>(ErrorKind::InvalidArgument),
{
    Err(ComputeError::InvalidArgument(message.to_owned()))
}

/// The sum of the arguments; zero for none.
pub fn sum<N: Numeric>(args: Vec<Value<N>>) -> (r: Result<Value<N>, ComputeError>)
    ensures
        result_view(r) == Builtin::Sum.apply(values_view(args@)),
{
    match total_of(&args) {
        Some(t) => Ok(Value::Number(t)),
        None => invalid("sum takes numbers only"),
    }
}

/// The sum of the arguments divided by their count.
pub fn avg<N: Numeric>(args: Vec<Value<N>>) -> (r: Result<Value<N>, ComputeError>)
    ensures
        result_view(r) == Builtin::Avg.apply(values_view(args@)),
{
    if args.len() == 0 {
        return invalid("avg takes at least one number");
    }
    match total_of(&args) {
        Some(t) => Ok(Value::Number(t.over(count_of(args.len())))),
        None => invalid("avg takes numbers only"),
    }
}

/// The least of the arguments.
pub fn min<N: Numeric>(args: Vec<Value<N>>) -> (r: Result<Value<N>, ComputeError>)
    ensures
        result_view(r) == Builtin::Min.apply(values_view(args@)),
{
    match extreme_of(&args, Comparison::Less) {
        Some(x) => Ok(Value::Number(x)),
        None => invalid("min takes one or more numbers"),
    }
}

/// The greatest of the arguments.
pub fn max<N: Numeric>(args: Vec<Value<N>>) -> (r: Result<Value<N>, ComputeError>)
    ensures
        result_view(r) == Builtin::Max.apply(values_view(args@)),
{
    match extreme_of(&args, Comparison::Greater) {
        Some(x) => Ok(Value::Number(x)),
        None => invalid("max takes one or more numbers"),
    }
}

/// The number of arguments, whatever they are.
pub fn count<N: Numeric>(args: Vec<Value<N>>) -> (r: Result<Value<N>, ComputeError>)
    ensures
        result_view(r) == Builtin::Count.apply(values_view(args@)),
{
    Ok(Value::Number(count_of(args.len())))
}

/// The second argument where the first is true, the third where it is false.
pub fn if_else<N: Numeric>(args: Vec<Value<N>>) -> (r: Result<Value<N>, ComputeError>)
    ensures
        result_view(r) == Builtin::If.apply(values_view(args@)),
{
    if args.len() != 3 {
        return invalid("if takes a condition and two values");
    }
    match &args[0] {
        Value::Bool(c) => {
            if *c {
                Ok(args[1].duplicate())
            } else {
                Ok(args[2].duplicate())
            }
        },
        _ => Err(ComputeError::TypeError("the condition of if is no boolean".to_owned())),
    }
}

} // verus!
