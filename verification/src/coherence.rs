//! What the cells of a sheet have to hold after every edit, stated over the
//! mathematical view of the sheet, and the facts about evaluation that the
//! edits rest on.

use crate::ast_resolver::{apply_binary, cells_values, gather, range_cells, Environment};
use crate::builtin_functions::{builtin_of, Builtin};
use crate::common_functions::cell_index;
use crate::common_types::{ErrorKind, Index, Numeric, Outcome, ParsedView, Tree, ValueView};
use crate::parser::{dependencies_of, joined, lemma_dependencies, parse_raw};
use vstd::assert_by_contradiction;
use vstd::prelude::*;

verus! {

/// The mathematical view of a cell that has been read and evaluated.
pub struct CellView<N> {
    /// The raw text.
    pub raw: Seq<char>,
    /// What the text was read as; `None` where it could not be read.
    pub parsed: Option<ParsedView<N>>,
    /// What the cell evaluates to.
    pub computed: Outcome<N>,
}

/// The mathematical view of a sheet: its cells by their coordinates.
pub type Cells<N> = Map<Index, CellView<N>>;

/// The cells that the formula of `a` refers to; none for a cell that holds
/// no formula and for a coordinate without a cell.
pub open spec fn refers<N: Numeric>(cells: Cells<N>, a: Index) -> Seq<Index> {
    if cells.contains_key(a) {
        match cells[a].parsed {
            Some(ParsedView::Expr { tree, dependencies }) => dependencies,
            _ => Seq::empty(),
        }
    } else {
        Seq::empty()
    }
}

/// Whether the formula of `a` refers to `b`.
pub open spec fn edge<N: Numeric>(cells: Cells<N>, a: Index, b: Index) -> bool {
    refers(cells, a).contains(b)
}

/// Whether every cell of the set refers to a cell of the set.  The cells of
/// a cycle form such a set, and so do they together with the cells of a path
/// that leads into the cycle.
pub open spec fn blocked<N: Numeric>(cells: Cells<N>, set: Set<Index>) -> bool {
    forall|b: Index| set.contains(b) ==> #[trigger] supported(cells, set, b)
}

/// Whether `b` refers to a cell of the set.
pub open spec fn supported<N: Numeric>(cells: Cells<N>, set: Set<Index>, b: Index) -> bool {
    exists|d: Index| set.contains(d) && #[trigger] edge(cells, b, d)
}

/// Whether `u` belongs to a set of cells each of which refers to a cell of
/// the set.  In a sheet of finitely many cells these are the cells that lie
/// on a cycle or depend on a cell that does ([`lemma_taint_is_a_cycle`]).
pub open spec fn tainted<N: Numeric>(cells: Cells<N>, u: Index) -> bool {
    exists|set: Set<Index>| #[trigger] set.contains(u) && blocked(cells, set)
}

/// The results that the cells offer to the formulas that refer to them.
pub open spec fn environment<N: Numeric>(cells: Cells<N>) -> Environment<N> {
    Map::new(|i: Index| cells.contains_key(i), |i: Index| cells[i].computed)
}

/// What a cell has to evaluate to, given what the other cells evaluate to:
/// a cell that could not be read to a parse error, a text, a number or a
/// boolean to itself, a tainted formula to the error of a cycle, and any
/// other formula to what its tree evaluates to.
pub open spec fn expected<N: Numeric>(cells: Cells<N>, u: Index) -> Outcome<N> {
    match cells[u].parsed {
        None => Err(ErrorKind::ParseError),
        Some(ParsedView::Text(s)) => Ok(ValueView::Text(s)),
        Some(ParsedView::Number(n)) => Ok(ValueView::Number(n)),
        Some(ParsedView::Bool(b)) => Ok(ValueView::Bool(b)),
        Some(ParsedView::Expr { tree, dependencies }) => if tainted(cells, u) {
            Err(ErrorKind::Cycle)
        } else {
            tree.resolve(environment(cells))
        },
    }
}

/// Whether the cell at `u` holds what its raw text reads as.
pub open spec fn readable<N: Numeric>(cells: Cells<N>, u: Index) -> bool {
    &&& cells[u].raw.len() > 0
    &&& cells[u].parsed == parse_raw::<N>(cells[u].raw)
    &&& match cells[u].parsed {
        Some(ParsedView::Expr { tree, dependencies }) => tree.well_formed(),
        _ => true,
    }
}

/// Whether the cell at `u` evaluates to what it has to.
pub open spec fn settled<N: Numeric>(cells: Cells<N>, u: Index) -> bool {
    cells[u].computed == expected(cells, u)
}

/// Whether every cell holds what its raw text reads as and evaluates to
/// what it has to.
pub open spec fn coherent<N: Numeric>(cells: Cells<N>) -> bool {
    forall|u: Index| #[trigger] cells.contains_key(u) ==> readable(cells, u) && settled(cells, u)
}

/// Whether two environments offer the same for each of the given cells.
pub open spec fn agree<N: Numeric>(first: Environment<N>, second: Environment<N>, on: Seq<Index>) -> bool {
    forall|i: Index| #[trigger]
        on.contains(i) ==> first.contains_key(i) == second.contains_key(i) && (first.contains_key(
            i,
        ) ==> first[i] == second[i])
}

/// What one part holds, all parts joined hold.
proof fn lemma_joined_contains(parts: Seq<Seq<Index>>, k: int, i: Index)
    requires
        0 <= k < parts.len(),
        parts[k].contains(i),
    ensures
        joined(parts).contains(i),
    decreases parts.len(),
{
    let rest = joined(parts.drop_last());
    let last = parts.last();
    if k == parts.len() - 1 {
        let p = choose|p: int| 0 <= p < last.len() && last[p] == i;
        assert((rest + last)[rest.len() + p] == i);
    } else {
        assert(parts.drop_last()[k] == parts[k]);
        lemma_joined_contains(parts.drop_last(), k, i);
        let p = choose|p: int| 0 <= p < rest.len() && rest[p] == i;
        assert((rest + last)[p] == i);
    }
}

/// The values of cells depend on the results of those cells only.
proof fn lemma_cells_values_agree<N: Numeric>(
    cells: Seq<Index>,
    first: Environment<N>,
    second: Environment<N>,
)
    requires
        agree(first, second, cells),
    ensures
        cells_values(cells, first) == cells_values(cells, second),
    decreases cells.len(),
{
    if cells.len() > 0 {
        let rest = cells.drop_last();
        assert forall|i: Index| #[trigger] rest.contains(i) implies cells.contains(i) by {
            let p = choose|p: int| 0 <= p < rest.len() && rest[p] == i;
            assert(cells[p] == i);
        }
        lemma_cells_values_agree(rest, first, second);
        assert(cells[cells.len() - 1] == cells.last());
        assert(cells.contains(cells.last()));
    }
}

/// What a tree evaluates to depends on the results of the cells that it
/// refers to, and on nothing else.
pub proof fn lemma_resolve_agree<N: Numeric>(
    tree: Tree<N>,
    first: Environment<N>,
    second: Environment<N>,
)
    requires
        agree(first, second, tree.references()),
    ensures
        tree.resolve(first) == tree.resolve(second),
    decreases tree,
{
    match tree {
        Tree::Value(_) => {},
        Tree::CellName(name) => {
            match cell_index(name) {
                Some(i) => {
                    assert(tree.references()[0] == i);
                    assert(tree.references().contains(i));
                },
                None => {},
            }
        },
        Tree::BinaryOp { op, left, right } => {
            let l = left.references();
            let r = right.references();
            assert forall|i: Index| #[trigger] l.contains(i) implies (l + r).contains(i) by {
                let p = choose|p: int| 0 <= p < l.len() && l[p] == i;
                assert((l + r)[p] == i);
            }
            assert forall|i: Index| #[trigger] r.contains(i) implies (l + r).contains(i) by {
                let p = choose|p: int| 0 <= p < r.len() && r[p] == i;
                assert((l + r)[l.len() + p] == i);
            }
            lemma_resolve_agree(*left, first, second);
            lemma_resolve_agree(*right, first, second);
        },
        Tree::UnaryOp { op, expr } => {
            lemma_resolve_agree(*expr, first, second);
        },
        Tree::Range { from, to } => {},
        Tree::FunctionCall { name, arguments } => {
            let refs = tree.argument_references();
            assert forall|k: int| 0 <= k < arguments.len() implies #[trigger] tree.parts(first)[k]
                == tree.parts(second)[k] by {
                assert forall|i: Index| #[trigger] refs[k].contains(i) implies tree.references().contains(
                    i,
                ) by {
                    lemma_joined_contains(refs, k, i);
                }
                assert(refs[k] == arguments[k].references());
                assert(agree(first, second, refs[k]));
                match arguments[k] {
                    Tree::Range { from, to } => {
                        assert(refs[k] == range_cells(from, to));
                        lemma_cells_values_agree(range_cells(from, to), first, second);
                    },
                    _ => {
                        lemma_resolve_agree(arguments[k], first, second);
                    },
                }
            }
            assert(tree.parts(first) =~= tree.parts(second));
        },
    }
}

/// The walk over cells gives the error of a cycle only where one of them does.
proof fn lemma_cells_values_cycle<N: Numeric>(cells: Seq<Index>, env: Environment<N>)
    requires
        cells_values(cells, env) == Err::<Seq<ValueView<N>>, ErrorKind>(ErrorKind::Cycle),
    ensures
        exists|i: Index|
            #[trigger] cells.contains(i) && env.contains_key(i) && env[i] == Err::<
                ValueView<N>,
                ErrorKind,
            >(ErrorKind::Cycle),
    decreases cells.len(),
{
    if cells.len() > 0 {
        let rest = cells.drop_last();
        if cells_values(rest, env) is Err {
            lemma_cells_values_cycle(rest, env);
            let i = choose|i: Index|
                #[trigger] rest.contains(i) && env.contains_key(i) && env[i] == Err::<
                    ValueView<N>,
                    ErrorKind,
                >(ErrorKind::Cycle);
            let p = choose|p: int| 0 <= p < rest.len() && rest[p] == i;
            assert(cells[p] == i);
            assert(cells.contains(i) && env.contains_key(i) && env[i] == Err::<
                ValueView<N>,
                ErrorKind,
            >(ErrorKind::Cycle));
        } else {
            let i = cells.last();
            assert(cells[cells.len() - 1] == i);
            assert(cells.contains(i) && env.contains_key(i) && env[i] == Err::<
                ValueView<N>,
                ErrorKind,
            >(ErrorKind::Cycle));
        }
    }
}

/// Gathering gives the error of a cycle only where one of the parts does.
proof fn lemma_gather_cycle<N: Numeric>(parts: Seq<Result<Seq<ValueView<N>>, ErrorKind>>)
    requires
        gather(parts) == Err::<Seq<ValueView<N>>, ErrorKind>(ErrorKind::Cycle),
    ensures
        exists|k: int|
            0 <= k < parts.len() && #[trigger] parts[k] == Err::<Seq<ValueView<N>>, ErrorKind>(
                ErrorKind::Cycle,
            ),
    decreases parts.len(),
{
    if parts.len() > 0 {
        let rest = parts.drop_last();
        if gather(rest) is Err {
            lemma_gather_cycle(rest);
            let k = choose|k: int|
                0 <= k < rest.len() && #[trigger] rest[k] == Err::<Seq<ValueView<N>>, ErrorKind>(
                    ErrorKind::Cycle,
                );
            assert(parts[k] == rest[k]);
        } else {
            assert(parts[parts.len() - 1] == parts.last());
        }
    }
}

/// No function gives the error of a cycle.
proof fn lemma_apply_no_cycle<N: Numeric>(function: Builtin, values: Seq<ValueView<N>>)
    ensures
        function.apply(values) != Err::<ValueView<N>, ErrorKind>(ErrorKind::Cycle),
{
}

/// A tree evaluates to the error of a cycle only where a cell that it
/// refers to does.
pub proof fn lemma_resolve_cycle<N: Numeric>(tree: Tree<N>, env: Environment<N>)
    requires
        tree.resolve(env) == Err::<ValueView<N>, ErrorKind>(ErrorKind::Cycle),
    ensures
        exists|i: Index|
            #[trigger] tree.references().contains(i) && env.contains_key(i) && env[i] == Err::<
                ValueView<N>,
                ErrorKind,
            >(ErrorKind::Cycle),
    decreases tree,
{
    let cycle = Err::<ValueView<N>, ErrorKind>(ErrorKind::Cycle);
    match tree {
        Tree::Value(_) => {},
        Tree::CellName(name) => {
            let i = cell_index(name)->0;
            assert(tree.references()[0] == i);
            assert(tree.references().contains(i) && env.contains_key(i) && env[i] == cycle);
        },
        Tree::BinaryOp { op, left, right } => {
            let l = left.references();
            let r = right.references();
            if left.resolve(env) is Err {
                lemma_resolve_cycle(*left, env);
                let i = choose|i: Index|
                    #[trigger] l.contains(i) && env.contains_key(i) && env[i] == cycle;
                let p = choose|p: int| 0 <= p < l.len() && l[p] == i;
                assert((l + r)[p] == i);
                assert(tree.references().contains(i) && env.contains_key(i) && env[i] == cycle);
            } else if right.resolve(env) is Err {
                lemma_resolve_cycle(*right, env);
                let i = choose|i: Index|
                    #[trigger] r.contains(i) && env.contains_key(i) && env[i] == cycle;
                let p = choose|p: int| 0 <= p < r.len() && r[p] == i;
                assert((l + r)[l.len() + p] == i);
                assert(tree.references().contains(i) && env.contains_key(i) && env[i] == cycle);
            } else {
                assert(apply_binary(op, left.resolve(env)->Ok_0, right.resolve(env)->Ok_0) != cycle);
            }
        },
        Tree::UnaryOp { op, expr } => {
            lemma_resolve_cycle(*expr, env);
            let i = choose|i: Index|
                #[trigger] expr.references().contains(i) && env.contains_key(i) && env[i] == cycle;
            assert(tree.references().contains(i) && env.contains_key(i) && env[i] == cycle);
        },
        Tree::Range { from, to } => {},
        Tree::FunctionCall { name, arguments } => {
            let parts = tree.parts(env);
            let refs = tree.argument_references();
            if gather(parts) is Err {
                lemma_gather_cycle(parts);
                let k = choose|k: int|
                    0 <= k < parts.len() && #[trigger] parts[k] == Err::<
                        Seq<ValueView<N>>,
                        ErrorKind,
                    >(ErrorKind::Cycle);
                let i = match arguments[k] {
                    Tree::Range { from, to } => {
                        lemma_cells_values_cycle(range_cells(from, to), env);
                        choose|i: Index|
                            #[trigger] range_cells(from, to).contains(i) && env.contains_key(i)
                                && env[i] == cycle
                    },
                    _ => {
                        lemma_resolve_cycle(arguments[k], env);
                        choose|i: Index|
                            #[trigger] arguments[k].references().contains(i) && env.contains_key(i)
                                && env[i] == cycle
                    },
                };
                assert(refs[k].contains(i));
                lemma_joined_contains(refs, k, i);
                assert(tree.references().contains(i) && env.contains_key(i) && env[i] == cycle);
            } else {
                match builtin_of(name) {
                    Some(function) => {
                        lemma_apply_no_cycle(function, gather(parts)->Ok_0);
                    },
                    None => {},
                }
            }
        },
    }
}

/// A cell that refers to a tainted cell is tainted.
pub proof fn lemma_taint_spreads<N: Numeric>(cells: Cells<N>, u: Index, d: Index)
    requires
        edge(cells, u, d),
        tainted(cells, d),
    ensures
        tainted(cells, u),
{
    let set = choose|set: Set<Index>| #[trigger] set.contains(d) && blocked(cells, set);
    let larger = set.insert(u);
    assert forall|b: Index| larger.contains(b) implies #[trigger] supported(cells, larger, b) by {
        if set.contains(b) {
            assert(supported(cells, set, b));
            let e = choose|e: Index| set.contains(e) && #[trigger] edge(cells, b, e);
            assert(larger.contains(e) && edge(cells, b, e));
        } else {
            assert(larger.contains(d) && edge(cells, u, d));
        }
    }
    assert(larger.contains(u) && blocked(cells, larger));
}

/// A tainted cell refers to a tainted cell.
pub proof fn lemma_taint_source<N: Numeric>(cells: Cells<N>, u: Index)
    requires
        tainted(cells, u),
    ensures
        exists|d: Index| #[trigger] edge(cells, u, d) && tainted(cells, d),
{
    let set = choose|set: Set<Index>| #[trigger] set.contains(u) && blocked(cells, set);
    assert(supported(cells, set, u));
    let d = choose|d: Index| set.contains(d) && #[trigger] edge(cells, u, d);
    assert(set.contains(d) && blocked(cells, set));
    assert(edge(cells, u, d) && tainted(cells, d));
}

/// Whether a set of cells holds every cell that refers to one of its cells.
pub open spec fn upward_closed<N: Numeric>(cells: Cells<N>, set: Set<Index>) -> bool {
    forall|a: Index, b: Index| #[trigger] edge(cells, a, b) && set.contains(b) ==> set.contains(a)
}

/// Whether a set of cells holds every cell that one of its cells refers to.
pub open spec fn downward_closed<N: Numeric>(cells: Cells<N>, set: Set<Index>) -> bool {
    forall|a: Index, b: Index| #[trigger] edge(cells, a, b) && set.contains(a) ==> set.contains(b)
}

/// Taint outside a set that holds every cell that refers into it depends
/// on the formulas outside the set only.
pub proof fn lemma_taint_outside<N: Numeric>(
    first: Cells<N>,
    second: Cells<N>,
    changed: Set<Index>,
    u: Index,
)
    requires
        upward_closed(second, changed),
        forall|a: Index| !changed.contains(a) ==> refers(first, a) == refers(second, a),
        !changed.contains(u),
    ensures
        tainted(first, u) == tainted(second, u),
{
    if tainted(first, u) {
        let set = choose|set: Set<Index>| #[trigger] set.contains(u) && blocked(first, set);
        let rest = set.difference(changed);
        assert forall|b: Index| rest.contains(b) implies #[trigger] supported(second, rest, b) by {
            assert(supported(first, set, b));
            let d = choose|d: Index| set.contains(d) && #[trigger] edge(first, b, d);
            assert(edge(second, b, d));
            assert(rest.contains(d));
        }
        assert(rest.contains(u) && blocked(second, rest));
    }
    if tainted(second, u) {
        let set = choose|set: Set<Index>| #[trigger] set.contains(u) && blocked(second, set);
        let rest = set.difference(changed);
        assert forall|b: Index| rest.contains(b) implies #[trigger] supported(first, rest, b) by {
            assert(supported(second, set, b));
            let d = choose|d: Index| set.contains(d) && #[trigger] edge(second, b, d);
            assert(edge(first, b, d));
            assert(rest.contains(d));
        }
        assert(rest.contains(u) && blocked(first, rest));
    }
}

/// Among cells that evaluate to what they have to, and that refer to such
/// cells only, the error of a cycle marks the tainted cells and no others.
pub proof fn lemma_cycle_error_is_taint<N: Numeric>(cells: Cells<N>, done: Set<Index>, u: Index)
    requires
        downward_closed(cells, done),
        forall|a: Index| #[trigger] done.contains(a) && cells.contains_key(a) ==> settled(cells, a),
        forall|a: Index| #[trigger] cells.contains_key(a) ==> listed(cells, a),
        done.contains(u),
        cells.contains_key(u),
    ensures
        cells[u].computed == Err::<ValueView<N>, ErrorKind>(ErrorKind::Cycle) <==> tainted(
            cells,
            u,
        ),
{
    let cycle = Err::<ValueView<N>, ErrorKind>(ErrorKind::Cycle);
    if tainted(cells, u) {
        lemma_taint_source(cells, u);
    }
    if cells[u].computed == cycle && !tainted(cells, u) {
        let odd = Set::new(
            |a: Index|
                done.contains(a) && cells.contains_key(a) && cells[a].computed == cycle && !tainted(
                    cells,
                    a,
                ),
        );
        assert forall|b: Index| odd.contains(b) implies #[trigger] supported(cells, odd, b) by {
            assert(settled(cells, b));
            match cells[b].parsed {
                Some(ParsedView::Expr { tree, dependencies }) => {
                    let env = environment(cells);
                    lemma_resolve_cycle(tree, env);
                    let i = choose|i: Index|
                        #[trigger] tree.references().contains(i) && env.contains_key(i) && env[i]
                            == cycle;
                    lemma_references_are_edges(cells, b, i);
                    assert(edge(cells, b, i));
                    if tainted(cells, i) {
                        lemma_taint_spreads(cells, b, i);
                    }
                    assert(odd.contains(i) && edge(cells, b, i));
                },
                _ => {},
            }
        }
        assert(odd.contains(u) && blocked(cells, odd));
    }
}

/// Whether the formula of each cell lists the cells that its tree refers to.
pub open spec fn listed<N: Numeric>(cells: Cells<N>, u: Index) -> bool {
    match cells[u].parsed {
        Some(ParsedView::Expr { tree, dependencies }) => dependencies == dependencies_of(tree),
        _ => true,
    }
}

/// A cell refers to each cell that its tree refers to.
pub proof fn lemma_references_are_edges<N: Numeric>(cells: Cells<N>, u: Index, i: Index)
    requires
        cells.contains_key(u),
        cells[u].parsed is Some,
        cells[u].parsed->0 is Expr,
        cells[u].parsed->0->tree.references().contains(i),
        listed(cells, u),
    ensures
        edge(cells, u, i),
{
    lemma_dependencies(cells[u].parsed->0->tree);
}

/// Whether one of the cells that `u` refers to evaluates to the error of a
/// cycle.
pub open spec fn refers_to_cycle<N: Numeric>(cells: Cells<N>, u: Index) -> bool {
    exists|d: Index|
        #[trigger] edge(cells, u, d) && cells.contains_key(d) && cells[d].computed == Err::<
            ValueView<N>,
            ErrorKind,
        >(ErrorKind::Cycle)
}

/// What evaluating the cell at `u` gives, once every cell that it refers
/// to has been evaluated.
pub open spec fn evaluated<N: Numeric>(cells: Cells<N>, u: Index) -> Outcome<N> {
    match cells[u].parsed {
        None => Err(ErrorKind::ParseError),
        Some(ParsedView::Text(s)) => Ok(ValueView::Text(s)),
        Some(ParsedView::Number(n)) => Ok(ValueView::Number(n)),
        Some(ParsedView::Bool(b)) => Ok(ValueView::Bool(b)),
        Some(ParsedView::Expr { tree, dependencies }) => if refers_to_cycle(cells, u) {
            Err(ErrorKind::Cycle)
        } else {
            tree.resolve(environment(cells))
        },
    }
}

/// Whether `after` is `before` with another result at `u` and nothing else
/// changed.
pub open spec fn recomputed<N: Numeric>(before: Cells<N>, after: Cells<N>, u: Index) -> bool {
    &&& before.contains_key(u)
    &&& forall|a: Index| before.contains_key(a) == after.contains_key(a)
    &&& forall|a: Index| a != u && before.contains_key(a) ==> after[a] == before[a]
    &&& after[u].raw == before[u].raw
    &&& after[u].parsed == before[u].parsed
}

/// Taint depends on the formulas only.
pub proof fn lemma_taint_same<N: Numeric>(first: Cells<N>, second: Cells<N>)
    requires
        forall|a: Index| refers(first, a) == refers(second, a),
    ensures
        forall|a: Index| tainted(first, a) == tainted(second, a),
{
    assert forall|a: Index| tainted(first, a) == tainted(second, a) by {
        assert(upward_closed(second, Set::<Index>::empty()));
        lemma_taint_outside(first, second, Set::<Index>::empty(), a);
    }
}

/// Another result at `u` leaves every cell settled that does not refer to `u`.
pub proof fn lemma_stays_settled<N: Numeric>(
    before: Cells<N>,
    after: Cells<N>,
    u: Index,
    a: Index,
)
    requires
        recomputed(before, after, u),
        a != u,
        before.contains_key(a),
        settled(before, a),
        listed(before, a),
        !edge(before, a, u),
    ensures
        settled(after, a),
{
    assert forall|b: Index| refers(before, b) == refers(after, b) by {}
    lemma_taint_same(before, after);
    match before[a].parsed {
        Some(ParsedView::Expr { tree, dependencies }) => {
            assert forall|i: Index| #[trigger] tree.references().contains(i) implies i != u by {
                lemma_references_are_edges(before, a, i);
            }
            lemma_resolve_agree(tree, environment(before), environment(after));
        },
        _ => {},
    }
}

/// A cell that is evaluated when every cell that it refers to is settled,
/// and that does not refer to itself, is settled.
pub proof fn lemma_settles<N: Numeric>(before: Cells<N>, after: Cells<N>, done: Set<Index>, u: Index)
    requires
        recomputed(before, after, u),
        after[u].computed == evaluated(before, u),
        downward_closed(before, done),
        forall|d: Index| #[trigger] edge(before, u, d) ==> done.contains(d),
        !done.contains(u),
        forall|a: Index| #[trigger] done.contains(a) && before.contains_key(a) ==> settled(before, a),
        forall|a: Index| #[trigger] before.contains_key(a) ==> listed(before, a),
    ensures
        settled(after, u),
{
    let cycle = Err::<ValueView<N>, ErrorKind>(ErrorKind::Cycle);
    assert forall|b: Index| refers(before, b) == refers(after, b) by {}
    lemma_taint_same(before, after);
    match before[u].parsed {
        Some(ParsedView::Expr { tree, dependencies }) => {
            if refers_to_cycle(before, u) {
                let d = choose|d: Index|
                    #[trigger] edge(before, u, d) && before.contains_key(d) && before[d].computed
                        == cycle;
                lemma_cycle_error_is_taint(before, done, d);
                lemma_taint_spreads(before, u, d);
            } else {
                assert_by_contradiction!(!tainted(before, u), {
                    lemma_taint_source(before, u);
                    let d = choose|d: Index| #[trigger] edge(before, u, d) && tainted(before, d);
                    lemma_taint_source(before, d);
                    assert(before.contains_key(d));
                    lemma_cycle_error_is_taint(before, done, d);
                    assert(refers_to_cycle(before, u));
                });
                assert forall|i: Index| #[trigger] tree.references().contains(i) implies i != u by {
                    lemma_references_are_edges(before, u, i);
                }
                lemma_resolve_agree(tree, environment(before), environment(after));
            }
        },
        _ => {},
    }
}

/// Whether two sheets hold the same cells with the same raw texts.
pub open spec fn same_texts<N: Numeric>(first: Cells<N>, second: Cells<N>) -> bool {
    &&& forall|a: Index| first.contains_key(a) == second.contains_key(a)
    &&& forall|a: Index| #[trigger] first.contains_key(a) ==> first[a].raw == second[a].raw
}

/// Where two environments give different results for a tree, they differ
/// on a cell that the tree refers to.
proof fn lemma_resolve_differs<N: Numeric>(
    tree: Tree<N>,
    first: Environment<N>,
    second: Environment<N>,
)
    requires
        tree.resolve(first) != tree.resolve(second),
    ensures
        exists|i: Index|
            #[trigger] tree.references().contains(i) && !(first.contains_key(i)
                == second.contains_key(i) && (first.contains_key(i) ==> first[i] == second[i])),
{
    if agree(first, second, tree.references()) {
        lemma_resolve_agree(tree, first, second);
    }
}

/// What the cells of a sheet evaluate to is determined by their raw texts:
/// two coherent sheets that hold the same cells with the same raw texts are
/// the same sheet.
pub proof fn lemma_unique<N: Numeric>(first: Cells<N>, second: Cells<N>)
    requires
        coherent(first),
        coherent(second),
        same_texts(first, second),
    ensures
        first == second,
{
    assert forall|a: Index| #[trigger] first.contains_key(a) implies first[a].parsed
        == second[a].parsed by {
        assert(second.contains_key(a));
        assert(readable(first, a) && readable(second, a));
    }
    assert forall|a: Index| refers(first, a) == refers(second, a) by {
        if first.contains_key(a) {
            assert(first[a].parsed == second[a].parsed);
        }
    }
    lemma_taint_same(first, second);
    let differ = Set::new(
        |a: Index| first.contains_key(a) && first[a].computed != second[a].computed,
    );
    assert forall|b: Index| differ.contains(b) implies #[trigger] supported(first, differ, b) by {
        assert(second.contains_key(b));
        assert(readable(first, b) && settled(first, b));
        assert(readable(second, b) && settled(second, b));
        assert(first[b].parsed == second[b].parsed);
        match first[b].parsed {
            Some(ParsedView::Expr { tree, dependencies }) => {
                lemma_resolve_differs(tree, environment(first), environment(second));
                let i = choose|i: Index|
                    #[trigger] tree.references().contains(i) && !(environment(first).contains_key(i)
                        == environment(second).contains_key(i) && (environment(
                        first,
                    ).contains_key(i) ==> environment(first)[i] == environment(second)[i]));
                lemma_references_are_edges(first, b, i);
                assert(differ.contains(i) && edge(first, b, i));
            },
            _ => {},
        }
    }
    assert(blocked(first, differ));
    assert forall|a: Index| #[trigger] first.contains_key(a) implies first[a] == second[a] by {
        assert(second.contains_key(a));
        assert(readable(first, a) && settled(first, a));
        assert(readable(second, a) && settled(second, a));
        if first[a].computed != second[a].computed {
            assert(differ.contains(a));
            assert(tainted(first, a));
            assert(tainted(second, a));
            assert(supported(first, differ, a));
        }
    }
    assert(first =~= second);
}

/// Whether `after` is a coherent sheet that holds what `before` holds, but
/// at `idx` a cell with the raw text `raw`.
pub open spec fn written<N: Numeric>(
    before: Cells<N>,
    after: Cells<N>,
    idx: Index,
    raw: Seq<char>,
) -> bool {
    &&& coherent(after)
    &&& forall|a: Index| after.contains_key(a) == (a == idx || before.contains_key(a))
    &&& after[idx].raw == raw
    &&& forall|a: Index| a != idx && #[trigger] before.contains_key(a) ==> after[a].raw == before[a].raw
}

/// Whether `after` is a coherent sheet that holds what `before` holds, but
/// no cell at `idx`.
pub open spec fn erased<N: Numeric>(before: Cells<N>, after: Cells<N>, idx: Index) -> bool {
    &&& coherent(after)
    &&& forall|a: Index| after.contains_key(a) == (a != idx && before.contains_key(a))
    &&& forall|a: Index| a != idx && #[trigger] before.contains_key(a) ==> after[a].raw == before[a].raw
}

/// Writing the same raw text to the same cell a second time changes
/// nothing.
pub proof fn lemma_write_is_idempotent<N: Numeric>(
    start: Cells<N>,
    once: Cells<N>,
    twice: Cells<N>,
    idx: Index,
    raw: Seq<char>,
)
    requires
        written(start, once, idx, raw),
        written(once, twice, idx, raw),
    ensures
        twice == once,
{
    assert forall|a: Index| #[trigger] twice.contains_key(a) implies twice[a].raw == once[a].raw by {
        if a != idx {
            assert(once.contains_key(a));
        }
    }
    lemma_unique(twice, once);
}

/// Writes to two different cells give the same sheet in either order.
pub proof fn lemma_writes_commute<N: Numeric>(
    start: Cells<N>,
    first_then: Cells<N>,
    first_last: Cells<N>,
    second_then: Cells<N>,
    second_last: Cells<N>,
    i: Index,
    s: Seq<char>,
    j: Index,
    t: Seq<char>,
)
    requires
        i != j,
        written(start, first_then, i, s),
        written(first_then, first_last, j, t),
        written(start, second_then, j, t),
        written(second_then, second_last, i, s),
    ensures
        first_last == second_last,
{
    assert forall|a: Index| #[trigger] first_last.contains_key(a) implies first_last[a].raw
        == second_last[a].raw by {
        if a == i {
            assert(first_then.contains_key(i));
        } else if a == j {
            assert(second_then.contains_key(j));
        } else {
            assert(first_then.contains_key(a));
            assert(start.contains_key(a));
            assert(second_then.contains_key(a));
        }
    }
    lemma_unique(first_last, second_last);
}

/// Whether the cell at position `i` of `walk` refers to the next one.
pub open spec fn leads<N: Numeric>(cells: Cells<N>, walk: Seq<Index>, i: int) -> bool {
    edge(cells, walk[i], walk[i + 1])
}

/// Whether `walk` holds two or more cells, each of which refers to the next.
pub open spec fn is_walk<N: Numeric>(cells: Cells<N>, walk: Seq<Index>) -> bool {
    walk.len() >= 2 && forall|i: int| 0 <= i < walk.len() - 1 ==> #[trigger] leads(cells, walk, i)
}

/// Whether `cycle` is a walk that ends where it starts.
pub open spec fn is_cycle<N: Numeric>(cells: Cells<N>, cycle: Seq<Index>) -> bool {
    is_walk(cells, cycle) && cycle[0] == cycle[cycle.len() - 1]
}

/// Every cell of a walk that ends on a cycle is tainted, and so is every
/// cell of the cycle.
proof fn lemma_walk_is_tainted<N: Numeric>(
    cells: Cells<N>,
    walk: Seq<Index>,
    cycle: Seq<Index>,
    u: Index,
)
    requires
        is_cycle(cells, cycle),
        walk.len() >= 1,
        forall|i: int| 0 <= i < walk.len() - 1 ==> #[trigger] leads(cells, walk, i),
        walk[walk.len() - 1] == cycle[0],
        walk.contains(u) || cycle.contains(u),
    ensures
        tainted(cells, u),
{
    let set = Set::new(|a: Index| walk.contains(a) || cycle.contains(a));
    assert forall|b: Index| set.contains(b) implies #[trigger] supported(cells, set, b) by {
        if cycle.contains(b) {
            let k = choose|k: int| 0 <= k < cycle.len() && cycle[k] == b;
            let at = if k == cycle.len() - 1 {
                0
            } else {
                k
            };
            assert(leads(cells, cycle, at));
            assert(cycle.contains(cycle[at + 1]));
            assert(set.contains(cycle[at + 1]) && edge(cells, b, cycle[at + 1]));
        } else {
            let k = choose|k: int| 0 <= k < walk.len() && walk[k] == b;
            assert(cycle.contains(cycle[0]));
            assert(k < walk.len() - 1);
            assert(leads(cells, walk, k));
            assert(walk.contains(walk[k + 1]));
            assert(set.contains(walk[k + 1]) && edge(cells, b, walk[k + 1]));
        }
    }
    assert(set.contains(u) && blocked(cells, set));
}

/// In a coherent sheet every cell of a cycle evaluates to the error of a
/// cycle.
pub proof fn lemma_cycle_is_quarantined<N: Numeric>(cells: Cells<N>, cycle: Seq<Index>, u: Index)
    requires
        coherent(cells),
        is_cycle(cells, cycle),
        cycle.contains(u),
    ensures
        cells.contains_key(u),
        cells[u].computed == Err::<ValueView<N>, ErrorKind>(ErrorKind::Cycle),
{
    let walk = seq![cycle[0]];
    lemma_walk_is_tainted(cells, walk, cycle, u);
    lemma_taint_source(cells, u);
    assert(cells.contains_key(u));
    assert(settled(cells, u));
}

/// In a coherent sheet every cell from which a walk leads to a cell of a
/// cycle evaluates to the error of a cycle.
pub proof fn lemma_cycle_taints_dependents<N: Numeric>(
    cells: Cells<N>,
    walk: Seq<Index>,
    cycle: Seq<Index>,
    v: Index,
)
    requires
        coherent(cells),
        is_cycle(cells, cycle),
        is_walk(cells, walk),
        cycle.contains(walk[walk.len() - 1]),
        walk.contains(v),
    ensures
        cells.contains_key(v),
        cells[v].computed == Err::<ValueView<N>, ErrorKind>(ErrorKind::Cycle),
{
    let end = walk[walk.len() - 1];
    let k = choose|k: int| 0 <= k < cycle.len() && cycle[k] == end;
    let turned = cycle.subrange(k, cycle.len() as int) + cycle.subrange(1, k + 1);
    if k == 0 || k == cycle.len() - 1 {
        lemma_walk_is_tainted(cells, walk, cycle, v);
    } else {
        assert(is_cycle(cells, turned)) by {
            assert forall|i: int| 0 <= i < turned.len() - 1 implies #[trigger] leads(
                cells,
                turned,
                i,
            ) by {
                let tail = cycle.len() - k;
                if i < tail - 1 {
                    assert(leads(cells, cycle, k + i));
                    assert(turned[i] == cycle[k + i]);
                    assert(turned[i + 1] == cycle[k + i + 1]);
                } else if i == tail - 1 {
                    assert(leads(cells, cycle, 0));
                    assert(turned[i] == cycle[cycle.len() - 1]);
                    assert(turned[i + 1] == cycle[1]);
                } else {
                    assert(leads(cells, cycle, i - tail + 1));
                    assert(turned[i] == cycle[i - tail + 1]);
                    assert(turned[i + 1] == cycle[i - tail + 2]);
                }
            }
            assert(turned[0] == cycle[k]);
            assert(turned[turned.len() - 1] == cycle[k]);
        }
        lemma_walk_is_tainted(cells, walk, turned, v);
    }
    lemma_taint_source(cells, v);
    assert(cells.contains_key(v));
    assert(settled(cells, v));
}

/// Whether `cycle` is a cycle and `walk` holds one or more cells, each of
/// which refers to the next, and ends where `cycle` starts.
pub open spec fn ends_on_cycle<N: Numeric>(
    cells: Cells<N>,
    walk: Seq<Index>,
    cycle: Seq<Index>,
) -> bool {
    &&& is_cycle(cells, cycle)
    &&& walk.len() >= 1
    &&& forall|i: int| 0 <= i < walk.len() - 1 ==> #[trigger] leads(cells, walk, i)
    &&& walk[walk.len() - 1] == cycle[0]
}

/// Whether `u` lies on a cycle or depends on a cell that does.
pub open spec fn reaches_cycle<N: Numeric>(cells: Cells<N>, u: Index) -> bool {
    exists|walk: Seq<Index>, cycle: Seq<Index>|
        #[trigger] ends_on_cycle(cells, walk, cycle) && walk[0] == u
}

/// A cell of `set` that `b` refers to.
spec fn support<N: Numeric>(cells: Cells<N>, set: Set<Index>, b: Index) -> Index {
    choose|d: Index| set.contains(d) && #[trigger] edge(cells, b, d)
}

/// The cells that `steps` steps from `u` lead over, each step from a cell
/// to a cell of `set` that it refers to.
spec fn descent<N: Numeric>(cells: Cells<N>, set: Set<Index>, u: Index, steps: nat) -> Seq<Index>
    decreases steps,
{
    if steps == 0 {
        seq![u]
    } else {
        let before = descent(cells, set, u, (steps - 1) as nat);
        before.push(support(cells, set, before[before.len() - 1]))
    }
}

/// A descent stays in its set, and each of its cells refers to the next.
proof fn lemma_descent<N: Numeric>(cells: Cells<N>, set: Set<Index>, u: Index, steps: nat)
    requires
        blocked(cells, set),
        set.contains(u),
    ensures
        descent(cells, set, u, steps).len() == steps + 1,
        descent(cells, set, u, steps)[0] == u,
        forall|i: int| 0 <= i <= steps ==> set.contains(#[trigger] descent(cells, set, u, steps)[i]),
        forall|i: int| 0 <= i < steps ==> #[trigger] leads(cells, descent(cells, set, u, steps), i),
    decreases steps,
{
    if steps > 0 {
        let before = descent(cells, set, u, (steps - 1) as nat);
        let walk = descent(cells, set, u, steps);
        lemma_descent(cells, set, u, (steps - 1) as nat);
        let last = before[before.len() - 1];
        assert(set.contains(last));
        assert(supported(cells, set, last));
        assert forall|i: int| 0 <= i <= steps implies set.contains(#[trigger] walk[i]) by {
            if i < steps {
                assert(walk[i] == before[i]);
            }
        }
        assert forall|i: int| 0 <= i < steps implies #[trigger] leads(cells, walk, i) by {
            if i < steps - 1 {
                assert(leads(cells, before, i));
                assert(walk[i] == before[i]);
                assert(walk[i + 1] == before[i + 1]);
            } else {
                assert(walk[i] == last);
            }
        }
    }
}

/// In a sheet of finitely many cells the tainted cells are the cells that
/// lie on a cycle or depend on a cell that does.
pub proof fn lemma_taint_is_a_cycle<N: Numeric>(cells: Cells<N>, u: Index)
    requires
        cells.dom().finite(),
    ensures
        tainted(cells, u) <==> reaches_cycle(cells, u),
{
    if reaches_cycle(cells, u) {
        let (walk, cycle) = choose|walk: Seq<Index>, cycle: Seq<Index>|
            #[trigger] ends_on_cycle(cells, walk, cycle) && walk[0] == u;
        assert(walk.contains(u));
        lemma_walk_is_tainted(cells, walk, cycle, u);
    }
    if tainted(cells, u) {
        let set = choose|set: Set<Index>| #[trigger] set.contains(u) && blocked(cells, set);
        assert forall|b: Index| set.contains(b) implies cells.dom().contains(b) by {
            assert(supported(cells, set, b));
        }
        vstd::set_lib::lemma_len_subset(set, cells.dom());
        let steps = set.len();
        let all = descent(cells, set, u, steps);
        lemma_descent(cells, set, u, steps);
        assert_by_contradiction!(!all.no_duplicates(), {
            all.unique_seq_to_set();
            assert forall|b: Index| all.to_set().contains(b) implies set.contains(b) by {
                let i = choose|i: int| 0 <= i < all.len() && all[i] == b;
                assert(set.contains(all[i]));
            }
            vstd::set_lib::lemma_len_subset(all.to_set(), set);
            assert(all.to_set().len() <= steps);
        });
        let (i, j) = choose|i: int, j: int|
            0 <= i < all.len() && 0 <= j < all.len() && i != j && all[i] == all[j];
        let from = if i < j {
            i
        } else {
            j
        };
        let to = if i < j {
            j
        } else {
            i
        };
        let walk = all.subrange(0, from + 1);
        let cycle = all.subrange(from, to + 1);
        assert(ends_on_cycle(cells, walk, cycle)) by {
            assert forall|k: int| 0 <= k < walk.len() - 1 implies #[trigger] leads(
                cells,
                walk,
                k,
            ) by {
                assert(leads(cells, all, k));
                assert(walk[k] == all[k]);
                assert(walk[k + 1] == all[k + 1]);
            }
            assert forall|k: int| 0 <= k < cycle.len() - 1 implies #[trigger] leads(
                cells,
                cycle,
                k,
            ) by {
                assert(leads(cells, all, from + k));
                assert(cycle[k] == all[from + k]);
                assert(cycle[k + 1] == all[from + k + 1]);
            }
            assert(cycle[0] == all[from]);
            assert(cycle[cycle.len() - 1] == all[to]);
            assert(walk[walk.len() - 1] == all[from]);
        }
        assert(walk[0] == all[0]);
    }
}

} // verus!
