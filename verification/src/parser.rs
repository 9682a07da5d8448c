//! From the raw text of a cell to what the cell holds: a text, a number, a
//! boolean, or a formula with its expression tree and the cells it refers to.

pub mod ast_creator;
pub mod number;
pub mod tokenizer;

use crate::ast_resolver::{range_cells, ASTResolver};
use crate::common_functions::cell_index;
use crate::common_types::{
    parsed_view, Cell, Expression, Index, Numeric, ParseError, ParsedCell, ParsedView, Tree, AST,
};
use crate::parser::ast_creator::{parse_tokens, ASTCreateError, ASTCreator};
use crate::parser::number::{literal_decimal, parse_decimal};
use crate::parser::tokenizer::{
    spells_false, spells_true, tokenize, ExpressionTokenizer, TokenizeError,
};
use crate::text::{chars_of, digit, is_digit};
use vstd::prelude::*;

verus! {

/// `first` followed by `second`.
pub open spec fn joined(parts: Seq<Seq<Index>>) -> Seq<Index>
    decreases parts.len(),
{
    if parts.len() == 0 {
        Seq::empty()
    } else {
        joined(parts.drop_last()) + parts.last()
    }
}

impl<N: Numeric> Tree<N> {
    /// The cells that the tree refers to, in the order in which they stand
    /// in it, a range standing for each of its cells.
    pub open spec fn references(self) -> Seq<Index>
        decreases self, 1nat,
    {
        match self {
            Tree::Value(_) => Seq::empty(),
            Tree::CellName(name) => match cell_index(name) {
                Some(i) => seq![i],
                None => Seq::empty(),
            },
            Tree::BinaryOp { op, left, right } => left.references() + right.references(),
            Tree::UnaryOp { op, expr } => expr.references(),
            Tree::Range { from, to } => range_cells(from, to),
            Tree::FunctionCall { name, arguments } => joined(self.argument_references()),
        }
    }

    /// For each argument of a call, the cells that it refers to.
    pub open spec fn argument_references(self) -> Seq<Seq<Index>>
        decreases self, 0nat,
    {
        match self {
            Tree::FunctionCall { name, arguments } => Seq::new(
                arguments.len(),
                |i: int|
                    if 0 <= i < arguments.len() {
                        arguments[i].references()
                    } else {
                        Seq::empty()
                    },
            ),
            _ => Seq::empty(),
        }
    }
}

/// `known` with each cell of `more` that it does not hold yet added at its end.
pub open spec fn absorb(known: Seq<Index>, more: Seq<Index>) -> Seq<Index>
    decreases more.len(),
{
    if more.len() == 0 {
        known
    } else {
        let a = absorb(known, more.drop_last());
        if a.contains(more.last()) {
            a
        } else {
            a.push(more.last())
        }
    }
}

/// The cells of `cells`, each once, in the order of their first occurrence.
pub open spec fn unique(cells: Seq<Index>) -> Seq<Index> {
    absorb(Seq::empty(), cells)
}

/// The cells that a formula depends on.
pub open spec fn dependencies_of<N: Numeric>(tree: Tree<N>) -> Seq<Index> {
    unique(tree.references())
}

/// Absorbing two runs of cells one after the other is absorbing both at once.
pub proof fn lemma_absorb_joined(known: Seq<Index>, first: Seq<Index>, second: Seq<Index>)
    ensures
        absorb(known, first + second) == absorb(absorb(known, first), second),
    decreases second.len(),
{
    if second.len() == 0 {
        assert(first + second == first);
    } else {
        let all = first + second;
        assert(all.drop_last() == first + second.drop_last());
        assert(all.last() == second.last());
        lemma_absorb_joined(known, first, second.drop_last());
    }
}

/// Absorbing keeps what is known, adds nothing twice and adds every cell.
pub proof fn lemma_absorb(known: Seq<Index>, more: Seq<Index>)
    requires
        known.no_duplicates(),
    ensures
        absorb(known, more).no_duplicates(),
        forall|i: Index|
            absorb(known, more).contains(i) <==> (known.contains(i) || more.contains(i)),
    decreases more.len(),
{
    if more.len() > 0 {
        let rest = more.drop_last();
        lemma_absorb(known, rest);
        let a = absorb(known, rest);
        let r = absorb(known, more);
        assert forall|i: Index| r.contains(i) <==> (known.contains(i) || more.contains(i)) by {
            if more.contains(i) {
                let k = choose|k: int| 0 <= k < more.len() && more[k] == i;
                if k < rest.len() {
                    assert(rest[k] == i);
                    assert(rest.contains(i));
                }
            }
            if rest.contains(i) {
                let k = choose|k: int| 0 <= k < rest.len() && rest[k] == i;
                assert(more[k] == i);
            }
            assert(more[more.len() - 1] == more.last());
            if !a.contains(more.last()) {
                assert(r == a.push(more.last()));
                assert(r[r.len() - 1] == more.last());
                if a.contains(i) {
                    let k = choose|k: int| 0 <= k < a.len() && a[k] == i;
                    assert(r[k] == i);
                }
                if r.contains(i) {
                    let k = choose|k: int| 0 <= k < r.len() && r[k] == i;
                    if k < a.len() {
                        assert(a[k] == i);
                    }
                }
            }
        }
    }
}

/// The cells that a formula depends on are its references, each once.
pub proof fn lemma_dependencies<N: Numeric>(tree: Tree<N>)
    ensures
        dependencies_of(tree).no_duplicates(),
        forall|i: Index| dependencies_of(tree).contains(i) <==> tree.references().contains(i),
{
    lemma_absorb(Seq::empty(), tree.references());
}

/// What a raw cell text is read as; `None` where it cannot be read.
///
/// After `=` stands a formula.  A text that starts with a digit or a sign
/// has to be a decimal literal.  `TRUE` and `FALSE` are the booleans.
/// Anything else is the text itself.
pub open spec fn parse_raw<N: Numeric>(raw: Seq<char>) -> Option<ParsedView<N>>
    recommends
        raw.len() > 0,
{
    if raw[0] == '=' {
        match tokenize::<N>(raw.subrange(1, raw.len() as int)) {
            Err(_) => None,
            Ok(tokens) => match parse_tokens(tokens) {
                Err(_) => None,
                Ok(tree) => Some(ParsedView::Expr { tree, dependencies: dependencies_of(tree) }),
            },
        }
    } else if is_digit(raw[0]) || raw[0] == '+' || raw[0] == '-' {
        match literal_decimal(raw) {
            Some(value) => Some(ParsedView::Number(N::decimal(value))),
            None => None,
        }
    } else if spells_true(raw) {
        Some(ParsedView::Bool(true))
    } else if spells_false(raw) {
        Some(ParsedView::Bool(false))
    } else {
        Some(ParsedView::Text(raw))
    }
}

/// Whether `cell` is among `known`.
fn holds(known: &Vec<Index>, cell: Index) -> (r: bool)
    ensures
        r == known@.contains(cell),
{
    let mut i: usize = 0;
    while i < known.len()
        invariant
            i <= known.len(),
            forall|k: int| 0 <= k < i ==> known@[k] != cell,
        decreases known.len() - i,
    {
        if known[i].x == cell.x && known[i].y == cell.y {
            return true;
        }
        i = i + 1;
    }
    false
}

/// Adds to `known` each cell of `more` that it does not hold yet.
fn absorb_cells(known: &mut Vec<Index>, more: &Vec<Index>)
    ensures
        final(known)@ == absorb(old(known)@, more@),
{
    let mut i: usize = 0;
    assert(more@.subrange(0, 0) =~= Seq::<Index>::empty());
    while i < more.len()
        invariant
            i <= more.len(),
            known@ == absorb(old(known)@, more@.subrange(0, i as int)),
        decreases more.len() - i,
    {
        proof {
            let longer = more@.subrange(0, i as int + 1);
            assert(longer.drop_last() == more@.subrange(0, i as int));
            assert(longer.last() == more[i as int]);
        }
        if !holds(known, more[i]) {
            known.push(more[i]);
        }
        i = i + 1;
    }
    assert(more@.subrange(0, i as int) == more@);
}

/// Adds the cells that `ast` refers to, where they are not known yet.
fn collect_references<N: Numeric>(ast: &AST<N>, known: &mut Vec<Index>)
    ensures
        final(known)@ == absorb(old(known)@, ast@.references()),
    decreases ast,
{
    match ast {
        AST::Value(_) => {},
        AST::CellName(name) => {
            match ASTResolver::get_cell_idx(name.as_str()) {
                Some(i) => {
                    let mut one: Vec<Index> = Vec::new();
                    one.push(i);
                    assert(one@ =~= seq![i]);
                    absorb_cells(known, &one);
                },
                None => {},
            }
        },
        AST::BinaryOp { op, left, right } => {
            collect_references(left, known);
            collect_references(right, known);
            proof {
                lemma_absorb_joined(old(known)@, left@.references(), right@.references());
            }
        },
        AST::UnaryOp { op, expr } => {
            collect_references(expr, known);
        },
        AST::Range { from, to } => {
            let cells = ASTResolver::range_to_indeces(from.as_str(), to.as_str());
            absorb_cells(known, &cells);
        },
        AST::FunctionCall { name, arguments } => {
            let ghost parts = ast@.argument_references();
            proof {
                assert(parts.subrange(0, 0) =~= Seq::<Seq<Index>>::empty());
                assert forall|k: int| 0 <= k < arguments@.len() implies #[trigger] parts[k]
                    == arguments@[k]@.references() by {
                    assert(ast@->FunctionCall_arguments[k] == arguments@[k]@);
                }
            }
            let mut i: usize = 0;
            while i < arguments.len()
                invariant
                    i <= arguments.len(),
                    parts.len() == arguments@.len(),
                    parts == ast@.argument_references(),
                    ast == (AST::FunctionCall { name: *name, arguments: *arguments }),
                    forall|k: int|
                        0 <= k < arguments@.len() ==> #[trigger] parts[k]
                            == arguments@[k]@.references(),
                    known@ == absorb(old(known)@, joined(parts.subrange(0, i as int))),
                decreases arguments.len() - i,
            {
                proof {
                    let longer = parts.subrange(0, i as int + 1);
                    assert(longer.drop_last() == parts.subrange(0, i as int));
                    assert(longer.last() == parts[i as int]);
                    lemma_absorb_joined(
                        old(known)@,
                        joined(parts.subrange(0, i as int)),
                        parts[i as int],
                    );
                }
                collect_references(&arguments[i], known);
                i = i + 1;
            }
            assert(parts.subrange(0, i as int) == parts);
        },
    }
}

/// A failure to read a cell, with the given text.
fn failure(message: &str) -> (r: ParseError)
    ensures
        r.0@ == message@,
{
    ParseError(message.to_owned())
}

/// The reader of raw cell texts.
pub struct CellParser {}

impl CellParser {
    /// Reads the raw text of `cell` and stores what it was read as.
    pub fn parse_cell<N: Numeric>(cell: &mut Cell<N>)
        requires
            old(cell).raw_representation@.len() > 0,
        ensures
            final(cell).raw_representation == old(cell).raw_representation,
            final(cell).computed_value == old(cell).computed_value,
            final(cell).parsed_representation is Some,
            parsed_view(final(cell).parsed_representation->0) == parse_raw::<N>(
                old(cell).raw_representation@,
            ),
            Self::readable(final(cell).parsed_representation->0),
    {
        let parsed = Self::parse_text(cell.raw_representation.as_str());
        cell.parsed_representation = Some(parsed);
    }

    /// Whether the tree of a formula, where one was read, is well formed.
    pub open spec fn readable<N: Numeric>(parsed: Result<ParsedCell<N>, ParseError>) -> bool {
        match parsed {
            Ok(ParsedCell::Expr(e)) => e.ast@.well_formed(),
            _ => true,
        }
    }

    /// Reads a raw cell text.
    pub fn parse_text<N: Numeric>(raw: &str) -> (r: Result<ParsedCell<N>, ParseError>)
        requires
            raw@.len() > 0,
        ensures
            parsed_view(r) == parse_raw::<N>(raw@),
            Self::readable(r),
    {
        let chars = chars_of(raw);
        let first = chars[0];
        if first == '=' {
            Self::parse_expression(&chars)
        } else if digit(first) || first == '+' || first == '-' {
            assert(chars@.subrange(0, chars@.len() as int) == chars@);
            match parse_decimal(&chars, 0, chars.len()) {
                Some(value) => Ok(ParsedCell::Number(N::from_decimal(value))),
                None => Err(failure("The text is not a number")),
            }
        } else if chars.len() == 4 && chars[0] == 'T' && chars[1] == 'R' && chars[2] == 'U'
            && chars[3] == 'E' {
            Ok(ParsedCell::Bool(true))
        } else if chars.len() == 5 && chars[0] == 'F' && chars[1] == 'A' && chars[2] == 'L'
            && chars[3] == 'S' && chars[4] == 'E' {
            Ok(ParsedCell::Bool(false))
        } else {
            Ok(ParsedCell::Text(raw.to_owned()))
        }
    }

    /// Reads a formula; `chars` holds its text with the leading `=`.
    fn parse_expression<N: Numeric>(chars: &Vec<char>) -> (r: Result<ParsedCell<N>, ParseError>)
        requires
            chars@.len() > 0,
            chars@[0] == '=',
        ensures
            parsed_view(r) == parse_raw::<N>(chars@),
            Self::readable(r),
    {
        let mut body: Vec<char> = Vec::new();
        let mut i: usize = 1;
        while i < chars.len()
            invariant
                1 <= i <= chars.len(),
                body@ == chars@.subrange(1, i as int),
            decreases chars.len() - i,
        {
            body.push(chars[i]);
            i = i + 1;
        }
        let mut tokenizer = ExpressionTokenizer::new(body);
        let tokens = match tokenizer.tokenize_expression::<N>() {
            Ok(tokens) => tokens,
            Err(e) => {
                return Err(
                    match e {
                        TokenizeError::UnexpectedCharacter(_) => failure("Unexpected character"),
                        TokenizeError::InvalidCellName(_) => failure("Invalid cell name"),
                        TokenizeError::InvalidNumber(_) => failure("Invalid number format"),
                        TokenizeError::UnterminatedString => failure("Unterminated String"),
                    },
                );
            },
        };
        let ast = match ASTCreator::new(tokens).parse() {
            Ok(ast) => ast,
            Err(e) => {
                return Err(
                    match e {
                        ASTCreateError::UnexpectedToken => failure("Unexpected Token"),
                        ASTCreateError::MismatchedParentheses => failure("Mismatched Parentheses"),
                        ASTCreateError::InvalidRange => failure("Invalid Range Expression"),
                    },
                );
            },
        };
        let dependencies = Self::find_dependants(&ast);
        Ok(ParsedCell::Expr(Expression { ast, dependencies }))
    }

    /// The cells that a formula depends on: those that its tree refers to,
    /// each once, a range standing for each of its cells.
    pub fn find_dependants<N: Numeric>(ast: &AST<N>) -> (r: Vec<Index>)
        ensures
            r@ == dependencies_of(ast@),
    {
        let mut cells: Vec<Index> = Vec::new();
        collect_references(ast, &mut cells);
        cells
    }
}

} // verus!
