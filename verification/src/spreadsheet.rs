//! The sheet: it owns the cells and their dependency graph, and after every
//! edit it evaluates again the edited cell and each cell that depends on it.

use crate::ast_resolver::{ASTResolver, VarContext};
use crate::coherence::{
    blocked, coherent, downward_closed, edge, environment, lemma_references_are_edges,
    lemma_resolve_agree, lemma_taint_outside, listed, readable, refers, settled, supported,
    tainted, upward_closed, erased, written, CellView, Cells,
};
use crate::common_types::{
    duplicate_result, lookup_view, parsed_view, result_view, Cell, ComputeError, ErrorKind, Index,
    Numeric, ParseError, ParsedCell, ParsedView, Value, ValueView,
};
use crate::dependency_graph::{copy_cells, DependencyGraph};
use crate::parser::{lemma_dependencies, CellParser};
use vstd::prelude::*;

verus! {

/// A cell and where it stands.
struct Slot<N> {
    index: Index,
    cell: Cell<N>,
}

/// A sheet of cells.
pub struct SpreadSheet<N> {
    slots: Vec<Slot<N>>,
    graph: DependencyGraph,
}

/// The view of a cell that has been read and evaluated.
spec fn cell_view<N: Numeric>(cell: Cell<N>) -> CellView<N> {
    CellView {
        raw: cell.raw_representation@,
        parsed: parsed_view(cell.parsed_representation->0),
        computed: result_view(cell.computed_value->0),
    }
}

/// Whether slot `k` is the first one that stands at `i`.
spec fn is_first<N: Numeric>(slots: Seq<Slot<N>>, i: Index, k: int) -> bool {
    &&& 0 <= k < slots.len()
    &&& slots[k].index == i
    &&& forall|j: int| 0 <= j < k ==> (#[trigger] slots[j]).index != i
}

/// The first slot that stands at `i`, if there is one.
spec fn first_slot<N: Numeric>(slots: Seq<Slot<N>>, i: Index) -> Option<int> {
    if exists|k: int| is_first(slots, i, k) {
        Some(choose|k: int| is_first(slots, i, k))
    } else {
        None
    }
}

/// A first slot is the first slot.
proof fn lemma_first_slot<N: Numeric>(slots: Seq<Slot<N>>, i: Index, k: int)
    requires
        is_first(slots, i, k),
    ensures
        first_slot(slots, i) == Some(k),
{
    let c = choose|c: int| is_first(slots, i, c);
    if c < k {
        assert(slots[c].index != i);
    } else if k < c {
        assert(slots[k].index != i);
    }
}

/// Where no slot stands at a place, none is the first there.
proof fn lemma_no_slot<N: Numeric>(slots: Seq<Slot<N>>, i: Index)
    requires
        forall|k: int| 0 <= k < slots.len() ==> (#[trigger] slots[k]).index != i,
    ensures
        first_slot(slots, i) is None,
{
}

impl<N: Numeric> View for SpreadSheet<N> {
    type V = Cells<N>;

    /// The cells of the sheet by their coordinates.
    closed spec fn view(&self) -> Cells<N> {
        Map::new(
            |i: Index| first_slot(self.slots@, i) is Some,
            |i: Index| cell_view(self.slots@[first_slot(self.slots@, i)->0].cell),
        )
    }
}

impl<N: Numeric> VarContext<N> for SpreadSheet<N> {
    closed spec fn variable(&self, index: Index) -> Option<Result<Value<N>, ComputeError>> {
        match first_slot(self.slots@, index) {
            Some(k) => self.slots@[k].cell.computed_value,
            None => None,
        }
    }

    fn get_variable(&self, index: Index) -> (r: Option<Result<Value<N>, ComputeError>>) {
        match self.position(index) {
            Some(k) => match &self.slots[k].cell.computed_value {
                Some(value) => Some(duplicate_result(value)),
                None => None,
            },
            None => None,
        }
    }
}

impl<N: Numeric> SpreadSheet<N> {
    /// The dependency graph of the sheet.
    pub closed spec fn graph(&self) -> DependencyGraph {
        self.graph
    }

    /// Whether no two slots stand at the same place, every cell has been
    /// read and evaluated, and the graph holds the edges of the formulas.
    spec fn slots_ok(&self) -> bool {
        &&& forall|i: int, j: int|
            0 <= i < j < self.slots@.len() ==> self.slots@[i].index != self.slots@[j].index
        &&& forall|k: int|
            0 <= k < self.slots@.len() ==> {
                let cell = (#[trigger] self.slots@[k]).cell;
                &&& cell.parsed_representation is Some
                &&& cell.computed_value is Some
                &&& CellParser::readable(cell.parsed_representation->0)
            }
    }

    /// Whether the slots are in order, the graph holds the edges of the
    /// formulas, and every cell holds what its raw text reads as.
    spec fn shaped(&self) -> bool {
        &&& self.slots_ok()
        &&& self.graph.well_formed()
        &&& forall|u: Index| #[trigger] self.graph.depends_on(u) == refers(self@, u)
        &&& forall|u: Index| #[trigger] self@.contains_key(u) ==> readable(self@, u)
    }

    /// The invariant of the sheet: what it holds is consistent, and every
    /// cell evaluates to what it has to.
    pub closed spec fn well_formed(&self) -> bool {
        self.shaped() && coherent(self@)
    }

    /// A well-formed sheet is coherent, and for every formula cell the
    /// graph holds exactly the cells that the formula refers to.
    pub proof fn lemma_well_formed(&self)
        requires
            self.well_formed(),
        ensures
            coherent(self@),
            self.graph().well_formed(),
            forall|u: Index| #[trigger] self.graph().depends_on(u) == refers(self@, u),
    {
    }

    /// For every formula cell the graph holds the cells that the tree of
    /// the formula refers to, each once, a range standing for each of its
    /// cells, and no others.
    pub proof fn lemma_dependencies_are_complete(&self, u: Index)
        requires
            self.well_formed(),
            self@.contains_key(u),
            self@[u].parsed is Some,
            self@[u].parsed->0 is Expr,
        ensures
            self.graph().depends_on(u) == crate::parser::dependencies_of(self@[u].parsed->0->tree),
            self.graph().depends_on(u).no_duplicates(),
            forall|i: Index|
                self.graph().depends_on(u).contains(i) <==> self@[u].parsed->0->tree.references().contains(
                    i,
                ),
    {
        assert(self.graph.depends_on(u) == refers(self@, u));
        assert(readable(self@, u));
        lemma_dependencies(self@[u].parsed->0->tree);
    }

    /// Every edge of the graph starts at a formula cell of the sheet.
    pub proof fn lemma_edges_start_at_formulas(&self, u: Index, v: Index)
        requires
            self.well_formed(),
            self.graph().edge(u, v),
        ensures
            self@.contains_key(u),
            self@[u].parsed is Some,
            self@[u].parsed->0 is Expr,
    {
        assert(self.graph.depends_on(u) == refers(self@, u));
    }

    /// A sheet holds finitely many cells.
    pub proof fn lemma_cells_are_finite(&self)
        ensures
            self@.dom().finite(),
    {
        let places = self.slots@.map_values(|slot: Slot<N>| slot.index);
        vstd::seq_lib::seq_to_set_is_finite(places);
        assert forall|i: Index| self@.dom().contains(i) implies places.to_set().contains(i) by {
            let k = choose|k: int| is_first(self.slots@, i, k);
            assert(is_first(self.slots@, i, k));
            assert(places[k] == i);
        }
        vstd::set_lib::lemma_len_subset(self@.dom(), places.to_set());
    }

    /// The graph is determined by the cells: sheets that hold the same
    /// cells have the same edges.
    pub proof fn lemma_graph_follows_cells(&self, other: &Self)
        requires
            self.well_formed(),
            other.well_formed(),
            self@ == other@,
        ensures
            forall|u: Index| self.graph().depends_on(u) == other.graph().depends_on(u),
    {
        assert forall|u: Index| self.graph().depends_on(u) == other.graph().depends_on(u) by {
            assert(self.graph.depends_on(u) == refers(self@, u));
            assert(other.graph.depends_on(u) == refers(other@, u));
        }
    }

    /// The sheet holds the cell of each slot at the place of the slot.
    proof fn lemma_slot(&self, k: int)
        requires
            0 <= k < self.slots@.len(),
            forall|i: int, j: int|
                0 <= i < j < self.slots@.len() ==> self.slots@[i].index != self.slots@[j].index,
        ensures
            self@.contains_key(self.slots@[k].index),
            self@[self.slots@[k].index] == cell_view(self.slots@[k].cell),
            first_slot(self.slots@, self.slots@[k].index) == Some(k),
    {
        assert(is_first(self.slots@, self.slots@[k].index, k));
        lemma_first_slot(self.slots@, self.slots@[k].index, k);
    }

    /// Each cell of the sheet stands in a slot.
    proof fn lemma_has_slot(&self, u: Index)
        requires
            self@.contains_key(u),
        ensures
            first_slot(self.slots@, u) is Some,
            0 <= first_slot(self.slots@, u)->0 < self.slots@.len(),
            self.slots@[first_slot(self.slots@, u)->0].index == u,
    {
        let k = choose|k: int| is_first(self.slots@, u, k);
        assert(is_first(self.slots@, u, k));
    }

    /// What the sheet offers to a formula is what its cells evaluate to.
    proof fn lemma_environment(&self)
        requires
            forall|k: int|
                0 <= k < self.slots@.len() ==> (#[trigger] self.slots@[k]).cell.computed_value
                    is Some,
        ensures
            crate::ast_resolver::environment(self) == environment(self@),
    {
        let first = crate::ast_resolver::environment(self);
        let second = environment(self@);
        assert forall|i: Index| first.contains_key(i) == second.contains_key(i) by {
            if first_slot(self.slots@, i) is Some {
                let k = choose|k: int| is_first(self.slots@, i, k);
                assert(is_first(self.slots@, i, k));
                assert(self.slots@[k].cell.computed_value is Some);
            }
        }
        assert(first =~= second);
    }

    /// An empty sheet.
    pub fn new() -> (r: Self)
        ensures
            r.well_formed(),
            r@ == Map::<Index, CellView<N>>::empty(),
    {
        let r = SpreadSheet { slots: Vec::new(), graph: DependencyGraph::new() };
        proof {
            assert(r@ =~= Map::<Index, CellView<N>>::empty());
        }
        r
    }

    /// The position of the first slot that stands at `idx`.
    fn position(&self, idx: Index) -> (r: Option<usize>)
        ensures
            match r {
                Some(k) => is_first(self.slots@, idx, k as int),
                None => forall|k: int| 0 <= k < self.slots@.len() ==> (#[trigger] self.slots@[k]).index != idx,
            },
            match r {
                Some(k) => first_slot(self.slots@, idx) == Some(k as int),
                None => first_slot(self.slots@, idx) is None,
            },
    {
        let mut i: usize = 0;
        while i < self.slots.len()
            invariant
                i <= self.slots.len(),
                forall|k: int| 0 <= k < i ==> (#[trigger] self.slots@[k]).index != idx,
            decreases self.slots.len() - i,
        {
            if self.slots[i].index == idx {
                proof {
                    lemma_first_slot(self.slots@, idx, i as int);
                }
                return Some(i);
            }
            i = i + 1;
        }
        proof {
            lemma_no_slot(self.slots@, idx);
        }
        None
    }

    /// The raw text of the cell at `idx`; `None` where there is no cell.
    pub fn get_raw(&self, idx: &Index) -> (r: Option<&str>)
        ensures
            match r {
                Some(raw) => self@.contains_key(*idx) && raw@ == self@[*idx].raw,
                None => !self@.contains_key(*idx),
            },
    {
        match self.position(*idx) {
            Some(k) => Some(self.slots[k].cell.raw_representation.as_str()),
            None => None,
        }
    }

    /// What the cell at `idx` evaluates to; `None` where there is no cell.
    pub fn get_computed(&self, idx: Index) -> (r: Option<Result<Value<N>, ComputeError>>)
        requires
            self.well_formed(),
        ensures
            lookup_view(r) == if self@.contains_key(idx) {
                Some(self@[idx].computed)
            } else {
                None
            },
    {
        match self.position(idx) {
            Some(k) => match &self.slots[k].cell.computed_value {
                Some(value) => Some(duplicate_result(value)),
                None => None,
            },
            None => None,
        }
    }

    /// The cells that the formula at `idx` refers to, as the graph holds
    /// them; none where there is no cell or the cell holds no formula.
    pub fn get_dependencies(&self, idx: Index) -> (r: Vec<Index>)
        requires
            self.well_formed(),
        ensures
            r@ == self.graph().depends_on(idx),
            r@ == refers(self@, idx),
    {
        self.graph.get_edges(idx)
    }

    /// The cells whose formulas refer to `idx`, each once.
    pub fn get_dependents(&self, idx: Index) -> (r: Vec<Index>)
        requires
            self.well_formed(),
        ensures
            r@.no_duplicates(),
            forall|u: Index| r@.contains(u) <==> edge(self@, u, idx),
    {
        let r = self.graph.dependents_of(idx);
        proof {
            assert forall|u: Index| r@.contains(u) <==> edge(self@, u, idx) by {
                assert(self.graph.depends_on(u) == refers(self@, u));
            }
        }
        r
    }

    /// The error that the cell at `idx` evaluates to; `None` where there is
    /// no cell or the cell has a value.
    pub fn get_error(&self, idx: Index) -> (r: Option<ComputeError>)
        requires
            self.well_formed(),
        ensures
            match r {
                Some(e) => self@.contains_key(idx) && self@[idx].computed == Err::<
                    ValueView<N>,
                    ErrorKind,
                >(e@),
                None => !self@.contains_key(idx) || self@[idx].computed is Ok,
            },
    {
        match self.get_computed(idx) {
            Some(Err(e)) => Some(e),
            _ => None,
        }
    }
}

/// Where the slots stand at the same places, the same slot is the first at
/// each place.
proof fn lemma_same_places<N: Numeric>(first: Seq<Slot<N>>, second: Seq<Slot<N>>, i: Index)
    requires
        first.len() == second.len(),
        forall|k: int| 0 <= k < first.len() ==> (#[trigger] first[k]).index == second[k].index,
    ensures
        first_slot(first, i) == first_slot(second, i),
{
    if exists|k: int| is_first(first, i, k) {
        let k = choose|k: int| is_first(first, i, k);
        assert(is_first(second, i, k)) by {
            assert(first[k].index == second[k].index);
            assert forall|j: int| 0 <= j < k implies (#[trigger] second[j]).index != i by {
                assert(first[j].index == second[j].index);
            }
        }
        lemma_first_slot(second, i, k);
    } else if exists|k: int| is_first(second, i, k) {
        let k = choose|k: int| is_first(second, i, k);
        assert(is_first(first, i, k)) by {
            assert(first[k].index == second[k].index);
            assert forall|j: int| 0 <= j < k implies (#[trigger] first[j]).index != i by {
                assert(first[j].index == second[j].index);
            }
        }
    }
}

impl<N: Numeric> SpreadSheet<N> {
    /// Makes `value` what the cell in slot `k` evaluates to.
    fn store(&mut self, k: usize, value: Result<Value<N>, ComputeError>)
        requires
            old(self).shaped(),
            k < old(self).slots@.len(),
        ensures
            final(self).shaped(),
            final(self).graph == old(self).graph,
            final(self).slots@.len() == old(self).slots@.len(),
            final(self).slots@[k as int].index == old(self).slots@[k as int].index,
            crate::coherence::recomputed(old(self)@, final(self)@, old(self).slots@[k as int].index),
            final(self)@[old(self).slots@[k as int].index].computed == result_view(value),
    {
        let ghost before = *self;
        let ghost u = self.slots@[k as int].index;
        self.slots[k].cell.computed_value = Some(value);
        proof {
            assert forall|i: Index| first_slot(self.slots@, i) == first_slot(before.slots@, i) by {
                lemma_same_places(self.slots@, before.slots@, i);
            }
            before.lemma_slot(k as int);
            assert forall|a: Index| a != u && before@.contains_key(a) implies self@[a] == before@[a] by {
                before.lemma_has_slot(a);
            }
            assert forall|a: Index| refers(self@, a) == refers(before@, a) by {
                if a != u && before@.contains_key(a) {
                    assert(self@[a] == before@[a]);
                }
            }
            assert forall|a: Index| #[trigger] self@.contains_key(a) implies readable(self@, a) by {
                assert(before@.contains_key(a));
                if a != u {
                    assert(self@[a] == before@[a]);
                }
            }
        }
    }
}

/// The cells that are not affected by an edit, and the first `count` cells
/// of the order in which the affected cells are evaluated.
spec fn finished(changed: Set<Index>, order: Seq<Index>, count: int) -> Set<Index> {
    Set::new(|a: Index| !changed.contains(a) || order.subrange(0, count).contains(a))
}

impl<N: Numeric> SpreadSheet<N> {
    /// Whether one of the cells that `u` refers to evaluates to the error
    /// of a cycle.
    fn refers_to_cycle(&self, u: Index, deps: &Vec<Index>) -> (r: bool)
        requires
            self.shaped(),
            deps@ == refers(self@, u),
        ensures
            r == crate::coherence::refers_to_cycle(self@, u),
    {
        let mut i: usize = 0;
        while i < deps.len()
            invariant
                self.shaped(),
                i <= deps.len(),
                deps@ == refers(self@, u),
                forall|p: int|
                    0 <= p < i ==> !(self@.contains_key(#[trigger] deps@[p]) && self@[deps@[p]].computed
                        == Err::<ValueView<N>, ErrorKind>(ErrorKind::Cycle)),
            decreases deps.len() - i,
        {
            let d = deps[i];
            match self.position(d) {
                Some(k) => {
                    match &self.slots[k].cell.computed_value {
                        Some(Err(ComputeError::Cycle)) => {
                            assert(edge(self@, u, d));
                            return true;
                        },
                        _ => {},
                    }
                },
                None => {},
            }
            i = i + 1;
        }
        proof {
            if crate::coherence::refers_to_cycle(self@, u) {
                let d = choose|d: Index|
                    #[trigger] edge(self@, u, d) && self@.contains_key(d) && self@[d].computed
                        == Err::<ValueView<N>, ErrorKind>(ErrorKind::Cycle);
                let p = choose|p: int| 0 <= p < deps@.len() && deps@[p] == d;
                assert(self@.contains_key(deps@[p]));
            }
        }
        false
    }

    /// Evaluates the cell at `u`, if there is one.  The cells that `u`
    /// refers to have been evaluated before.
    fn settle(&mut self, u: Index, Ghost(done): Ghost<Set<Index>>)
        requires
            old(self).shaped(),
            downward_closed(old(self)@, done),
            forall|d: Index| #[trigger] edge(old(self)@, u, d) ==> done.contains(d),
            !done.contains(u),
            forall|a: Index|
                #[trigger] done.contains(a) && old(self)@.contains_key(a) ==> settled(old(self)@, a),
        ensures
            final(self).shaped(),
            final(self).graph == old(self).graph,
            forall|a: Index| final(self)@.contains_key(a) == old(self)@.contains_key(a),
            forall|a: Index| a != u && old(self)@.contains_key(a) ==> final(self)@[a] == old(self)@[a],
            forall|a: Index| refers(final(self)@, a) == refers(old(self)@, a),
            old(self)@.contains_key(u) ==> final(self)@[u].raw == old(self)@[u].raw
                && final(self)@[u].parsed == old(self)@[u].parsed,
            final(self)@.contains_key(u) ==> settled(final(self)@, u),
            forall|a: Index|
                #[trigger] done.contains(a) && final(self)@.contains_key(a) ==> settled(
                    final(self)@,
                    a,
                ),
    {
        let ghost before = *self;
        let k = match self.position(u) {
            Some(k) => k,
            None => {
                return ;
            },
        };
        proof {
            self.lemma_environment();
            assert(self@.contains_key(u));
            assert(self@[u] == cell_view(self.slots@[k as int].cell));
            assert(readable(self@, u));
        }
        let value = match &self.slots[k].cell.parsed_representation {
            Some(Ok(ParsedCell::Text(s))) => Ok(Value::Text(s.clone())),
            Some(Ok(ParsedCell::Number(n))) => Ok(Value::Number(*n)),
            Some(Ok(ParsedCell::Bool(b))) => Ok(Value::Bool(*b)),
            Some(Ok(ParsedCell::Expr(e))) => {
                if self.refers_to_cycle(u, &e.dependencies) {
                    Err(ComputeError::Cycle)
                } else {
                    ASTResolver::resolve(&e.ast, &*self)
                }
            },
            Some(Err(e)) => Err(ComputeError::ParseError(e.0.clone())),
            None => Err(ComputeError::Cycle),
        };
        assert(result_view(value) == crate::coherence::evaluated(self@, u));
        self.store(k, value);
        proof {
            assert forall|a: Index| refers(self@, a) == refers(before@, a) by {
                if a != u && before@.contains_key(a) {
                    assert(self@[a] == before@[a]);
                }
            }
            assert forall|a: Index| #[trigger] before@.contains_key(a) implies listed(before@, a) by {
                assert(readable(before@, a));
            }
            crate::coherence::lemma_settles(before@, self@, done, u);
            assert forall|a: Index| #[trigger]
                done.contains(a) && self@.contains_key(a) implies settled(self@, a) by {
                assert(!edge(before@, a, u));
                crate::coherence::lemma_stays_settled(before@, self@, u, a);
            }
        }
    }

    /// Makes the error of a cycle what the cell at `b` evaluates to.
    fn mark_cycle(&mut self, b: Index, Ghost(done): Ghost<Set<Index>>)
        requires
            old(self).shaped(),
            downward_closed(old(self)@, done),
            !done.contains(b),
            forall|a: Index|
                #[trigger] done.contains(a) && old(self)@.contains_key(a) ==> settled(old(self)@, a),
        ensures
            final(self).shaped(),
            final(self).graph == old(self).graph,
            forall|a: Index| final(self)@.contains_key(a) == old(self)@.contains_key(a),
            forall|a: Index| a != b && old(self)@.contains_key(a) ==> final(self)@[a] == old(self)@[a],
            forall|a: Index| refers(final(self)@, a) == refers(old(self)@, a),
            old(self)@.contains_key(b) ==> final(self)@[b].raw == old(self)@[b].raw
                && final(self)@[b].parsed == old(self)@[b].parsed,
            final(self)@.contains_key(b) ==> final(self)@[b].computed == Err::<
                ValueView<N>,
                ErrorKind,
            >(ErrorKind::Cycle),
            forall|a: Index|
                #[trigger] done.contains(a) && final(self)@.contains_key(a) ==> settled(
                    final(self)@,
                    a,
                ),
    {
        let ghost before = *self;
        let k = match self.position(b) {
            Some(k) => k,
            None => {
                return ;
            },
        };
        self.store(k, Err(ComputeError::Cycle));
        proof {
            assert forall|a: Index| refers(self@, a) == refers(before@, a) by {
                if a != b && before@.contains_key(a) {
                    assert(self@[a] == before@[a]);
                }
            }
            assert forall|a: Index| #[trigger]
                done.contains(a) && self@.contains_key(a) implies settled(self@, a) by {
                assert(readable(before@, a));
                assert(!edge(before@, a, b));
                crate::coherence::lemma_stays_settled(before@, self@, b, a);
            }
        }
    }
}

impl<N: Numeric> SpreadSheet<N> {
    /// Whether `a` is `idx` or depends on it.
    pub open spec fn affected(&self, idx: Index, a: Index) -> bool {
        self.graph().affected(idx, a)
    }

    /// After an edit of the cell at `idx`, evaluates `idx` and every cell
    /// that depends on it: each after the cells that it refers to, and the
    /// cells that lie on a cycle or depend on one to the error of a cycle.
    fn cascade(&mut self, idx: Index, Ghost(before): Ghost<Cells<N>>)
        requires
            old(self).shaped(),
            coherent(before),
            forall|a: Index| a != idx ==> old(self)@.contains_key(a) == before.contains_key(a),
            forall|a: Index| a != idx && before.contains_key(a) ==> old(self)@[a] == before[a],
        ensures
            final(self).well_formed(),
            final(self).graph == old(self).graph,
            forall|a: Index| final(self)@.contains_key(a) == old(self)@.contains_key(a),
            forall|a: Index|
                old(self)@.contains_key(a) ==> final(self)@[a].raw == old(self)@[a].raw
                    && final(self)@[a].parsed == old(self)@[a].parsed,
            forall|a: Index|
                #[trigger] old(self)@.contains_key(a) && !old(self).affected(idx, a)
                    ==> final(self)@[a] == old(self)@[a],
    {
        let ghost entry = *self;
        let closure = self.graph.dependents_closure(idx);
        let ghost order = closure.order@;
        let ghost stuck = closure.in_cycle@;
        let ghost changed = Set::new(|a: Index| entry.graph.affected(idx, a));
        proof {
            assert forall|a: Index, b: Index| #[trigger]
                edge(entry@, a, b) && changed.contains(b) implies changed.contains(a) by {
                assert(entry.graph.depends_on(a) == refers(entry@, a));
                entry.graph.lemma_affected_closed(idx, a, b);
            }
            assert(order.subrange(0, 0) =~= Seq::<Index>::empty());
            let done = finished(changed, order, 0);
            assert forall|a: Index| #[trigger]
                done.contains(a) && entry@.contains_key(a) implies settled(entry@, a) by {
                assert(!changed.contains(a));
                assert(a != idx);
                assert(before.contains_key(a));
                assert(readable(before, a) && settled(before, a));
                assert forall|c: Index| !changed.contains(c) implies refers(before, c) == refers(
                    entry@,
                    c,
                ) by {
                    assert(c != idx);
                    if before.contains_key(c) {
                        assert(entry@[c] == before[c]);
                    }
                }
                lemma_taint_outside(before, entry@, changed, a);
                match before[a].parsed {
                    Some(ParsedView::Expr { tree, dependencies }) => {
                        assert forall|i: Index| #[trigger]
                            tree.references().contains(i) implies environment(before).contains_key(i)
                            == environment(entry@).contains_key(i) && (environment(
                            before,
                        ).contains_key(i) ==> environment(before)[i] == environment(entry@)[i]) by {
                            lemma_references_are_edges(entry@, a, i);
                            assert(edge(entry@, a, i));
                            assert(!changed.contains(i));
                            assert(i != idx);
                        }
                        lemma_resolve_agree(tree, environment(before), environment(entry@));
                    },
                    _ => {},
                }
            }
        }
        let mut p: usize = 0;
        while p < closure.order.len()
            invariant
                p <= closure.order.len(),
                order == closure.order@,
                stuck == closure.in_cycle@,
                changed == Set::new(|a: Index| entry.graph.affected(idx, a)),
                self.shaped(),
                self.graph == entry.graph,
                order.no_duplicates(),
                forall|a: Index| order.contains(a) ==> entry.graph.affected(idx, a),
                forall|q: int, d: Index|
                    0 <= q < order.len() && #[trigger] entry.graph.edge(order[q], d)
                        && entry.graph.affected(idx, d) ==> exists|r: int|
                        0 <= r < q && order[r] == d,
                upward_closed(entry@, changed),
                forall|a: Index| self@.contains_key(a) == entry@.contains_key(a),
                forall|a: Index| refers(self@, a) == refers(entry@, a),
                forall|a: Index|
                    entry@.contains_key(a) ==> self@[a].raw == entry@[a].raw && self@[a].parsed
                        == entry@[a].parsed,
                forall|a: Index|
                    entry@.contains_key(a) && !changed.contains(a) ==> self@[a] == entry@[a],
                forall|a: Index|
                    #[trigger] finished(changed, order, p as int).contains(a) && self@.contains_key(
                        a,
                    ) ==> settled(self@, a),
            decreases closure.order.len() - p,
        {
            let u = closure.order[p];
            let ghost done = finished(changed, order, p as int);
            let ghost now = self@;
            proof {
                assert(order.contains(u));
                assert(!order.subrange(0, p as int).contains(u)) by {
                    let head = order.subrange(0, p as int);
                    if head.contains(u) {
                        let q = choose|q: int| 0 <= q < head.len() && head[q] == u;
                        assert(order[q] == order[p as int]);
                    }
                }
                lemma_done_closed(entry.graph, now, changed, order, idx, p as int);
                assert forall|d: Index| #[trigger] edge(now, u, d) implies done.contains(d) by {
                    assert(entry.graph.depends_on(u) == refers(entry@, u));
                    assert(entry.graph.edge(order[p as int], d));
                    if entry.graph.affected(idx, d) {
                        let r = choose|r: int| 0 <= r < p && order[r] == d;
                        assert(order.subrange(0, p as int)[r] == d);
                    }
                }
            }
            self.settle(u, Ghost(done));
            proof {
                let next = finished(changed, order, p as int + 1);
                assert forall|a: Index| #[trigger]
                    next.contains(a) && self@.contains_key(a) implies settled(self@, a) by {
                    if !done.contains(a) {
                        let head = order.subrange(0, p as int + 1);
                        let q = choose|q: int| 0 <= q < head.len() && head[q] == a;
                        if q < p {
                            assert(order.subrange(0, p as int)[q] == a);
                        }
                        assert(a == u);
                    }
                }
            }
            p = p + 1;
        }
        let ghost done = finished(changed, order, order.len() as int);
        let mut j: usize = 0;
        proof {
            assert(order.subrange(0, order.len() as int) == order);
        }
        while j < closure.in_cycle.len()
            invariant
                j <= closure.in_cycle.len(),
                order == closure.order@,
                stuck == closure.in_cycle@,
                changed == Set::new(|a: Index| entry.graph.affected(idx, a)),
                done == finished(changed, order, order.len() as int),
                self.shaped(),
                self.graph == entry.graph,
                order.no_duplicates(),
                stuck.no_duplicates(),
                forall|a: Index| !(order.contains(a) && stuck.contains(a)),
                forall|a: Index| (order.contains(a) || stuck.contains(a)) <==> changed.contains(a),
                forall|q: int, d: Index|
                    0 <= q < order.len() && #[trigger] entry.graph.edge(order[q], d)
                        && entry.graph.affected(idx, d) ==> exists|r: int|
                        0 <= r < q && order[r] == d,
                upward_closed(entry@, changed),
                forall|a: Index| self@.contains_key(a) == entry@.contains_key(a),
                forall|a: Index| refers(self@, a) == refers(entry@, a),
                forall|a: Index|
                    entry@.contains_key(a) ==> self@[a].raw == entry@[a].raw && self@[a].parsed
                        == entry@[a].parsed,
                forall|a: Index|
                    entry@.contains_key(a) && !changed.contains(a) ==> self@[a] == entry@[a],
                forall|a: Index|
                    #[trigger] done.contains(a) && self@.contains_key(a) ==> settled(self@, a),
                forall|q: int|
                    0 <= q < j && self@.contains_key(#[trigger] stuck[q]) ==> self@[stuck[q]].computed
                        == Err::<ValueView<N>, ErrorKind>(ErrorKind::Cycle),
            decreases closure.in_cycle.len() - j,
        {
            let b = closure.in_cycle[j];
            let ghost now = self@;
            proof {
                assert(stuck.contains(b));
                assert(changed.contains(b));
                assert(!order.contains(b));
                lemma_done_closed(entry.graph, now, changed, order, idx, order.len() as int);
            }
            self.mark_cycle(b, Ghost(done));
            proof {
                assert forall|q: int|
                    0 <= q < j + 1 && self@.contains_key(
                        #[trigger] stuck[q],
                    ) implies self@[stuck[q]].computed == Err::<ValueView<N>, ErrorKind>(
                    ErrorKind::Cycle,
                ) by {
                    if q < j {
                        assert(stuck[q] != b);
                        assert(self@[stuck[q]] == now[stuck[q]]);
                    }
                }
            }
            j = j + 1;
        }
        proof {
            let last = self@;
            let set = stuck.to_set();
            assert forall|b: Index| set.contains(b) implies #[trigger] supported(last, set, b) by {
                assert(stuck.contains(b));
                let d = choose|d: Index| stuck.contains(d) && #[trigger] entry.graph.edge(b, d);
                assert(entry.graph.depends_on(b) == refers(entry@, b));
                assert(set.contains(d) && edge(last, b, d));
            }
            assert(blocked(last, set));
            assert forall|u: Index| #[trigger] last.contains_key(u) implies readable(last, u)
                && settled(last, u) by {
                if !done.contains(u) {
                    assert(changed.contains(u));
                    assert(!order.contains(u));
                    assert(stuck.contains(u));
                    let q = choose|q: int| 0 <= q < stuck.len() && stuck[q] == u;
                    assert(last.contains_key(stuck[q]));
                    assert(set.contains(u));
                    assert(tainted(last, u));
                    assert(supported(last, set, u));
                }
            }
        }
    }
}

/// The cells that are finished refer to finished cells only.
proof fn lemma_done_closed<N: Numeric>(
    graph: DependencyGraph,
    cells: Cells<N>,
    changed: Set<Index>,
    order: Seq<Index>,
    idx: Index,
    count: int,
)
    requires
        0 <= count <= order.len(),
        changed == Set::new(|a: Index| graph.affected(idx, a)),
        forall|a: Index| #[trigger] graph.depends_on(a) == refers(cells, a),
        forall|q: int, d: Index|
            0 <= q < order.len() && #[trigger] graph.edge(order[q], d) && graph.affected(idx, d)
                ==> exists|r: int| 0 <= r < q && order[r] == d,
    ensures
        downward_closed(cells, finished(changed, order, count)),
{
    let done = finished(changed, order, count);
    assert forall|a: Index, b: Index| #[trigger]
        edge(cells, a, b) && done.contains(a) implies done.contains(b) by {
        assert(graph.depends_on(a) == refers(cells, a));
        assert(graph.edge(a, b));
        if changed.contains(b) {
            graph.lemma_affected_closed(idx, a, b);
            assert(changed.contains(a));
            let head = order.subrange(0, count);
            let q = choose|q: int| 0 <= q < head.len() && head[q] == a;
            assert(order[q] == a);
            let r = choose|r: int| 0 <= r < q && order[r] == b;
            assert(order.subrange(0, count)[r] == b);
        }
    }
}

/// A slot more at a place where none stood leaves the other places as they were.
proof fn lemma_pushed<N: Numeric>(slots: Seq<Slot<N>>, slot: Slot<N>, i: Index)
    requires
        forall|k: int| 0 <= k < slots.len() ==> (#[trigger] slots[k]).index != slot.index,
    ensures
        first_slot(slots.push(slot), i) == if i == slot.index {
            Some(slots.len() as int)
        } else {
            first_slot(slots, i)
        },
{
    let longer = slots.push(slot);
    if i == slot.index {
        assert(is_first(longer, i, slots.len() as int)) by {
            assert forall|j: int| 0 <= j < slots.len() implies (#[trigger] longer[j]).index != i by {
                assert(longer[j] == slots[j]);
            }
        }
        lemma_first_slot(longer, i, slots.len() as int);
    } else if exists|k: int| is_first(slots, i, k) {
        let k = choose|k: int| is_first(slots, i, k);
        assert(is_first(longer, i, k)) by {
            assert(longer[k] == slots[k]);
            assert forall|j: int| 0 <= j < k implies (#[trigger] longer[j]).index != i by {
                assert(longer[j] == slots[j]);
            }
        }
        lemma_first_slot(longer, i, k);
    } else if exists|k: int| is_first(longer, i, k) {
        let k = choose|k: int| is_first(longer, i, k);
        assert(longer[k].index == i);
        assert(k < slots.len());
        assert(is_first(slots, i, k)) by {
            assert(longer[k] == slots[k]);
            assert forall|j: int| 0 <= j < k implies (#[trigger] slots[j]).index != i by {
                assert(longer[j] == slots[j]);
            }
        }
    }
}

/// A slot less leaves the other places as they were.
proof fn lemma_removed<N: Numeric>(slots: Seq<Slot<N>>, k: int, i: Index)
    requires
        0 <= k < slots.len(),
        forall|a: int, b: int| 0 <= a < b < slots.len() ==> slots[a].index != slots[b].index,
    ensures
        first_slot(slots.remove(k), i) == if i == slots[k].index {
            None
        } else {
            match first_slot(slots, i) {
                Some(j) => if j < k {
                    Some(j)
                } else {
                    Some(j - 1)
                },
                None => None,
            }
        },
{
    let shorter = slots.remove(k);
    if i == slots[k].index {
        assert forall|j: int| 0 <= j < shorter.len() implies (#[trigger] shorter[j]).index != i by {
            if j < k {
                assert(shorter[j] == slots[j]);
            } else {
                assert(shorter[j] == slots[j + 1]);
            }
        }
        lemma_no_slot(shorter, i);
    } else if exists|j: int| is_first(slots, i, j) {
        let j = choose|j: int| is_first(slots, i, j);
        lemma_first_slot(slots, i, j);
        let moved = if j < k {
            j
        } else {
            j - 1
        };
        assert(is_first(shorter, i, moved)) by {
            assert(shorter[moved] == slots[j]);
            assert forall|q: int| 0 <= q < moved implies (#[trigger] shorter[q]).index != i by {
                if q < k {
                    assert(shorter[q] == slots[q]);
                } else {
                    assert(shorter[q] == slots[q + 1]);
                }
            }
        }
        lemma_first_slot(shorter, i, moved);
    } else {
        assert forall|j: int| 0 <= j < shorter.len() implies (#[trigger] shorter[j]).index != i by {
            let origin = if j < k {
                j
            } else {
                j + 1
            };
            assert(shorter[j] == slots[origin]);
            if slots[origin].index == i {
                assert(is_first(slots, i, origin)) by {
                    assert forall|q: int| 0 <= q < origin implies (#[trigger] slots[q]).index
                        != i by {
                        assert(slots[q].index != slots[origin].index);
                    }
                }
            }
        }
        lemma_no_slot(shorter, i);
    }
}

impl<N: Numeric> SpreadSheet<N> {
    /// Puts `cell` at `idx`, in place of the cell that stood there.
    fn place(&mut self, idx: Index, cell: Cell<N>)
        requires
            old(self).slots_ok(),
            cell.parsed_representation is Some,
            cell.computed_value is Some,
            CellParser::readable(cell.parsed_representation->0),
        ensures
            final(self).slots_ok(),
            final(self).graph == old(self).graph,
            forall|a: Index| final(self)@.contains_key(a) == (a == idx || old(self)@.contains_key(a)),
            final(self)@[idx] == cell_view(cell),
            forall|a: Index| a != idx && old(self)@.contains_key(a) ==> final(self)@[a] == old(self)@[a],
    {
        let ghost before = *self;
        match self.position(idx) {
            Some(k) => {
                self.slots[k].cell = cell;
                proof {
                    assert forall|i: Index| first_slot(self.slots@, i) == first_slot(
                        before.slots@,
                        i,
                    ) by {
                        lemma_same_places(self.slots@, before.slots@, i);
                    }
                    assert forall|a: Index| a != idx && before@.contains_key(a) implies self@[a]
                        == before@[a] by {
                        before.lemma_has_slot(a);
                    }
                }
            },
            None => {
                self.slots.push(Slot { index: idx, cell });
                proof {
                    let slot = Slot { index: idx, cell };
                    assert forall|i: Index| first_slot(self.slots@, i) == if i == idx {
                        Some(before.slots@.len() as int)
                    } else {
                        first_slot(before.slots@, i)
                    } by {
                        lemma_pushed(before.slots@, slot, i);
                    }
                    assert forall|a: Index| a != idx && before@.contains_key(a) implies self@[a]
                        == before@[a] by {
                        before.lemma_has_slot(a);
                    }
                }
            },
        }
    }

    /// Takes the cell at `idx` away, if there is one.
    fn take(&mut self, idx: Index)
        requires
            old(self).slots_ok(),
        ensures
            final(self).slots_ok(),
            final(self).graph == old(self).graph,
            forall|a: Index| final(self)@.contains_key(a) == (a != idx && old(self)@.contains_key(a)),
            forall|a: Index| a != idx && old(self)@.contains_key(a) ==> final(self)@[a] == old(self)@[a],
    {
        let ghost before = *self;
        match self.position(idx) {
            Some(k) => {
                self.slots.remove(k);
                proof {
                    assert forall|i: Index| first_slot(self.slots@, i) == if i == idx {
                        None
                    } else {
                        match first_slot(before.slots@, i) {
                            Some(j) => if j < k {
                                Some(j)
                            } else {
                                Some(j - 1)
                            },
                            None => None,
                        }
                    } by {
                        lemma_removed(before.slots@, k as int, i);
                    }
                    assert forall|a: Index| a != idx && before@.contains_key(a) implies self@[a]
                        == before@[a] by {
                        before.lemma_has_slot(a);
                        let j = first_slot(before.slots@, a)->0;
                        before.lemma_slot(j);
                    }
                    assert forall|i: int, j: int| 0 <= i < j < self.slots@.len() implies self.slots@[i].index
                        != self.slots@[j].index by {
                        let from = if i < k {
                            i
                        } else {
                            i + 1
                        };
                        let to = if j < k {
                            j
                        } else {
                            j + 1
                        };
                        assert(self.slots@[i] == before.slots@[from]);
                        assert(self.slots@[j] == before.slots@[to]);
                    }
                    assert forall|q: int| 0 <= q < self.slots@.len() implies {
                        let cell = (#[trigger] self.slots@[q]).cell;
                        &&& cell.parsed_representation is Some
                        &&& cell.computed_value is Some
                        &&& CellParser::readable(cell.parsed_representation->0)
                    } by {
                        let from = if q < k {
                            q
                        } else {
                            q + 1
                        };
                        assert(self.slots@[q] == before.slots@[from]);
                    }
                }
            },
            None => {},
        }
    }

    /// Makes `deps` the edges of `idx` in the graph.
    fn connect(&mut self, idx: Index, deps: Vec<Index>, Ghost(before): Ghost<Cells<N>>)
        requires
            old(self).slots_ok(),
            old(self).graph.well_formed(),
            deps@ == refers(old(self)@, idx),
            forall|u: Index| u != idx ==> #[trigger] old(self).graph.depends_on(u) == refers(before, u),
            forall|a: Index| a != idx ==> old(self)@.contains_key(a) == before.contains_key(a),
            forall|a: Index| a != idx && before.contains_key(a) ==> old(self)@[a] == before[a],
            forall|u: Index| u != idx && #[trigger] before.contains_key(u) ==> readable(before, u),
            old(self)@.contains_key(idx) ==> readable(old(self)@, idx),
        ensures
            final(self).shaped(),
            final(self)@ == old(self)@,
    {
        let ghost entry = *self;
        self.graph.set_edges(idx, deps);
        proof {
            assert(self.slots@ == entry.slots@);
            assert(self@ =~= entry@);
            assert forall|u: Index| #[trigger] self.graph.depends_on(u) == refers(self@, u) by {
                if u != idx {
                    assert(entry.graph.depends_on(u) == refers(before, u));
                    if before.contains_key(u) {
                        assert(self@[u] == before[u]);
                    }
                }
            }
            assert forall|u: Index| #[trigger] self@.contains_key(u) implies readable(self@, u) by {
                if u != idx {
                    assert(before.contains_key(u));
                    assert(self@[u] == before[u]);
                    assert(readable(before, u));
                }
            }
        }
    }

    /// Puts the cell with raw text `raw` at `idx`, in place of the cell that
    /// stood there, and evaluates it and every cell that depends on it.
    fn edit(&mut self, idx: Index, raw: String)
        requires
            old(self).well_formed(),
            raw@.len() > 0,
        ensures
            final(self).well_formed(),
            written(old(self)@, final(self)@, idx, raw@),
            forall|a: Index|
                #[trigger] old(self)@.contains_key(a) && !final(self).affected(idx, a)
                    ==> final(self)@[a] == old(self)@[a],
    {
        let ghost before = *self;
        let mut cell: Cell<N> = Cell::from_raw(raw);
        CellParser::parse_cell(&mut cell);
        cell.computed_value = Some(Err(ComputeError::Cycle));
        let deps = match &cell.parsed_representation {
            Some(Ok(ParsedCell::Expr(e))) => copy_cells(&e.dependencies),
            _ => Vec::new(),
        };
        self.place(idx, cell);
        self.connect(idx, deps, Ghost(before@));
        let ghost connected = *self;
        assert(connected@.contains_key(idx));
        assert(connected@[idx].raw == raw@);
        self.cascade(idx, Ghost(before@));
        proof {
            assert(self@[idx].raw == connected@[idx].raw);
            assert forall|a: Index| a != idx && #[trigger] before@.contains_key(a) implies self@[a].raw
                == before@[a].raw by {
                assert(connected@.contains_key(a));
            }
            assert(self.graph() == connected.graph());
            assert forall|a: Index| #[trigger]
                before@.contains_key(a) && !self.affected(idx, a) implies self@[a] == before@[a] by {
                assert(a != idx);
                assert(connected@.contains_key(a));
                assert(connected.affected(idx, a) == self.affected(idx, a));
                assert(connected@[a] == before@[a]);
            }
        }
    }

    /// Puts a cell with raw text `raw` at `idx` and evaluates it and every
    /// cell that depends on it.
    ///
    /// Afterwards the sheet holds the cell, every other cell holds the raw
    /// text it held, and every cell evaluates to what it has to; that
    /// determines the sheet.  The cells that do not depend on `idx` are as
    /// they were.
    pub fn add_cell_and_compute(&mut self, idx: Index, raw: String)
        requires
            old(self).well_formed(),
            raw@.len() > 0,
        ensures
            final(self).well_formed(),
            written(old(self)@, final(self)@, idx, raw@),
            forall|a: Index|
                #[trigger] old(self)@.contains_key(a) && !final(self).affected(idx, a)
                    ==> final(self)@[a] == old(self)@[a],
    {
        self.edit(idx, raw);
    }

    /// Gives the cell at `idx` the raw text `raw` and evaluates it and every
    /// cell that depends on it.
    ///
    /// Afterwards the sheet holds the cell, every other cell holds the raw
    /// text it held, and every cell evaluates to what it has to; that
    /// determines the sheet.  The cells that do not depend on `idx` are as
    /// they were.
    pub fn mutate_cell(&mut self, idx: Index, raw: String)
        requires
            old(self).well_formed(),
            raw@.len() > 0,
        ensures
            final(self).well_formed(),
            written(old(self)@, final(self)@, idx, raw@),
            forall|a: Index|
                #[trigger] old(self)@.contains_key(a) && !final(self).affected(idx, a)
                    ==> final(self)@[a] == old(self)@[a],
    {
        self.edit(idx, raw);
    }

    /// Takes the cell at `idx` away and evaluates every cell that depends
    /// on it.
    ///
    /// Afterwards the sheet holds no cell at `idx`, every other cell holds
    /// the raw text it held, and every cell evaluates to what it has to;
    /// that determines the sheet.  The cells that do not depend on `idx`
    /// are as they were.
    pub fn remove_cell(&mut self, idx: Index)
        requires
            old(self).well_formed(),
        ensures
            final(self).well_formed(),
            erased(old(self)@, final(self)@, idx),
            forall|a: Index|
                a != idx && #[trigger] old(self)@.contains_key(a) && !final(self).affected(idx, a)
                    ==> final(self)@[a] == old(self)@[a],
    {
        let ghost before = *self;
        self.take(idx);
        self.connect(idx, Vec::new(), Ghost(before@));
        let ghost connected = *self;
        self.cascade(idx, Ghost(before@));
        proof {
            assert forall|a: Index| a != idx && #[trigger] before@.contains_key(a) implies self@[a].raw
                == before@[a].raw by {
                assert(connected@.contains_key(a));
            }
            assert(self.graph() == connected.graph());
            assert forall|a: Index|
                a != idx && #[trigger] before@.contains_key(a) && !self.affected(
                    idx,
                    a,
                ) implies self@[a] == before@[a] by {
                assert(connected@.contains_key(a));
                assert(connected.affected(idx, a) == self.affected(idx, a));
                assert(connected@[a] == before@[a]);
            }
        }
    }
}

impl<N: Numeric> SpreadSheet<N> {
    /// Makes `content` the raw text of the cell at `idx`: an empty text
    /// takes the cell away, any other text is written to it.  Nothing is
    /// done where the cell holds the text already.
    pub fn commit(&mut self, idx: Index, content: String)
        requires
            old(self).well_formed(),
        ensures
            final(self).well_formed(),
            content@.len() == 0 ==> erased(old(self)@, final(self)@, idx),
            content@.len() > 0 ==> written(old(self)@, final(self)@, idx, content@),
    {
        let previous = match self.get_raw(&idx) {
            Some(raw) => raw.to_owned(),
            None => String::new(),
        };
        proof {
            if self@.contains_key(idx) {
                assert(readable(self@, idx));
            }
        }
        let fresh = previous.as_str().is_empty();
        if previous == content {
            return ;
        }
        if content.as_str().is_empty() {
            self.remove_cell(idx);
        } else if fresh {
            self.add_cell_and_compute(idx, content);
        } else {
            self.mutate_cell(idx, content);
        }
    }
}

impl<N: Numeric> Default for SpreadSheet<N> {
    /// An empty sheet.
    fn default() -> (r: Self)
        ensures
            r.well_formed(),
            r@ == Map::<Index, CellView<N>>::empty(),
    {
        SpreadSheet::new()
    }
}

} // verus!
