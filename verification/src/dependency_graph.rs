//! The dependency graph: for each formula cell, the cells that it refers to.
//!
//! An edge leads from a cell to each cell that its formula refers to.  The
//! graph answers which cells refer to a given one, which cells depend on it
//! through any number of steps, and in which order those are to be
//! evaluated so that every cell comes after the cells it refers to.

use crate::common_types::Index;
use vstd::prelude::*;

verus! {

/// A cell and the cells that it refers to.
struct Node {
    cell: Index,
    depends_on: Vec<Index>,
}

/// The cells to evaluate after an edit.
pub struct Closure {
    /// The cells that can be evaluated, each after the cells it refers to.
    pub order: Vec<Index>,
    /// The cells that cannot: each of them refers to another one of them.
    pub in_cycle: Vec<Index>,
}

/// The dependency graph of a sheet.
pub struct DependencyGraph {
    nodes: Vec<Node>,
}

/// The number of positions that are not marked.
spec fn unmarked(marks: Seq<bool>) -> nat
    decreases marks.len(),
{
    if marks.len() == 0 {
        0
    } else {
        unmarked(marks.drop_last()) + if marks.last() {
            0nat
        } else {
            1nat
        }
    }
}

/// Marking a position leaves one position less that is not marked.
proof fn lemma_mark(marks: Seq<bool>, k: int)
    requires
        0 <= k < marks.len(),
        !marks[k],
    ensures
        unmarked(marks.update(k, true)) == unmarked(marks) - 1,
    decreases marks.len(),
{
    let after = marks.update(k, true);
    if k == marks.len() - 1 {
        assert(after.drop_last() == marks.drop_last());
    } else {
        assert(after.drop_last() == marks.drop_last().update(k, true));
        lemma_mark(marks.drop_last(), k);
    }
}

/// The position of `x` in `v`, if it is there.
fn index_of(v: &Vec<Index>, x: Index) -> (r: Option<usize>)
    ensures
        match r {
            Some(k) => k < v.len() && v@[k as int] == x,
            None => !v@.contains(x),
        },
{
    let mut i: usize = 0;
    while i < v.len()
        invariant
            i <= v.len(),
            forall|k: int| 0 <= k < i ==> v@[k] != x,
        decreases v.len() - i,
    {
        if v[i] == x {
            return Some(i);
        }
        i = i + 1;
    }
    None
}

/// A copy of a list of cells.
pub fn copy_cells(v: &Vec<Index>) -> (r: Vec<Index>)
    ensures
        r@ == v@,
{
    let mut r: Vec<Index> = Vec::new();
    let mut i: usize = 0;
    while i < v.len()
        invariant
            i <= v.len(),
            r@ == v@.subrange(0, i as int),
        decreases v.len() - i,
    {
        r.push(v[i]);
        i = i + 1;
    }
    assert(v@.subrange(0, v@.len() as int) == v@);
    r
}

impl DependencyGraph {
    /// Whether no cell has two nodes.
    pub closed spec fn well_formed(&self) -> bool {
        forall|i: int, j: int|
            0 <= i < j < self.nodes@.len() ==> self.nodes@[i].cell != self.nodes@[j].cell
    }

    /// Whether `u` has a node.
    spec fn has_node(&self, u: Index) -> bool {
        exists|k: int| 0 <= k < self.nodes@.len() && #[trigger] self.nodes@[k].cell == u
    }

    /// The cells that `u` refers to; none for a cell without a formula.
    pub closed spec fn depends_on(&self, u: Index) -> Seq<Index> {
        if self.has_node(u) {
            let k = choose|k: int| 0 <= k < self.nodes@.len() && #[trigger] self.nodes@[k].cell == u;
            self.nodes@[k].depends_on@
        } else {
            Seq::empty()
        }
    }

    /// Whether `a` refers to `b`.
    pub open spec fn edge(&self, a: Index, b: Index) -> bool {
        self.depends_on(a).contains(b)
    }

    /// Whether `path` holds two or more cells, each of which refers to the next.
    pub open spec fn is_path(&self, path: Seq<Index>) -> bool {
        path.len() >= 2 && forall|i: int| 0 <= i < path.len() - 1 ==> #[trigger] self.links(path, i)
    }

    /// Whether the cell at position `i` of `path` refers to the next one.
    pub open spec fn links(&self, path: Seq<Index>, i: int) -> bool {
        self.edge(path[i], path[i + 1])
    }

    /// Whether `a` depends on `b` through one or more edges.
    pub open spec fn depends_transitively(&self, a: Index, b: Index) -> bool {
        exists|path: Seq<Index>|
            #[trigger] self.is_path(path) && path[0] == a && path[path.len() - 1] == b
    }

    /// The node of a cell holds the cells that the cell refers to.
    proof fn lemma_node(&self, k: int)
        requires
            self.well_formed(),
            0 <= k < self.nodes@.len(),
        ensures
            self.depends_on(self.nodes@[k].cell) == self.nodes@[k].depends_on@,
            self.has_node(self.nodes@[k].cell),
    {
    }

    /// A cell without a node refers to no cell.
    proof fn lemma_no_node(&self, u: Index)
        requires
            forall|k: int| 0 <= k < self.nodes@.len() ==> self.nodes@[k].cell != u,
        ensures
            self.depends_on(u) == Seq::<Index>::empty(),
    {
    }

    /// A graph without edges.
    pub fn new() -> (r: Self)
        ensures
            r.well_formed(),
            forall|u: Index| r.depends_on(u) == Seq::<Index>::empty(),
    {
        let r = DependencyGraph { nodes: Vec::new() };
        assert forall|u: Index| r.depends_on(u) == Seq::<Index>::empty() by {
            r.lemma_no_node(u);
        }
        r
    }

    /// The position of the node of `u`, if it has one.
    fn position(&self, u: Index) -> (r: Option<usize>)
        ensures
            match r {
                Some(k) => k < self.nodes@.len() && self.nodes@[k as int].cell == u,
                None => forall|k: int| 0 <= k < self.nodes@.len() ==> self.nodes@[k].cell != u,
            },
    {
        let mut i: usize = 0;
        while i < self.nodes.len()
            invariant
                i <= self.nodes.len(),
                forall|k: int| 0 <= k < i ==> self.nodes@[k].cell != u,
            decreases self.nodes.len() - i,
        {
            if self.nodes[i].cell == u {
                return Some(i);
            }
            i = i + 1;
        }
        None
    }

    /// Makes `deps` the cells that `u` refers to, in place of what it
    /// referred to before.
    pub fn set_edges(&mut self, u: Index, deps: Vec<Index>)
        requires
            old(self).well_formed(),
        ensures
            final(self).well_formed(),
            final(self).depends_on(u) == deps@,
            forall|w: Index| w != u ==> final(self).depends_on(w) == old(self).depends_on(w),
    {
        let ghost before = *self;
        match self.position(u) {
            Some(k) => {
                self.nodes.set(k, Node { cell: u, depends_on: deps });
                proof {
                    self.lemma_node(k as int);
                    assert forall|w: Index| w != u implies self.depends_on(w) == before.depends_on(
                        w,
                    ) by {
                        if before.has_node(w) {
                            let j = choose|j: int|
                                0 <= j < before.nodes@.len() && #[trigger] before.nodes@[j].cell
                                    == w;
                            before.lemma_node(j);
                            assert(self.nodes@[j] == before.nodes@[j]);
                            self.lemma_node(j);
                        } else {
                            assert forall|j: int| 0 <= j < self.nodes@.len() implies self.nodes@[j].cell
                                != w by {
                                if j != k {
                                    assert(self.nodes@[j] == before.nodes@[j]);
                                }
                            }
                            self.lemma_no_node(w);
                        }
                    }
                }
            },
            None => {
                self.nodes.push(Node { cell: u, depends_on: deps });
                proof {
                    let n = before.nodes@.len() as int;
                    assert forall|i: int, j: int| 0 <= i < j < self.nodes@.len() implies self.nodes@[i].cell
                        != self.nodes@[j].cell by {
                        assert(self.nodes@[i] == before.nodes@[i]);
                        if j < n {
                            assert(self.nodes@[j] == before.nodes@[j]);
                        }
                    }
                    self.lemma_node(n);
                    assert forall|w: Index| w != u implies self.depends_on(w) == before.depends_on(
                        w,
                    ) by {
                        if before.has_node(w) {
                            let j = choose|j: int|
                                0 <= j < before.nodes@.len() && #[trigger] before.nodes@[j].cell
                                    == w;
                            before.lemma_node(j);
                            assert(self.nodes@[j] == before.nodes@[j]);
                            self.lemma_node(j);
                        } else {
                            assert forall|j: int| 0 <= j < self.nodes@.len() implies self.nodes@[j].cell
                                != w by {
                                if j < n {
                                    assert(self.nodes@[j] == before.nodes@[j]);
                                }
                            }
                            self.lemma_no_node(w);
                        }
                    }
                }
            },
        }
    }

    /// Makes `u` refer to no cell.
    pub fn clear(&mut self, u: Index)
        requires
            old(self).well_formed(),
        ensures
            final(self).well_formed(),
            final(self).depends_on(u) == Seq::<Index>::empty(),
            forall|w: Index| w != u ==> final(self).depends_on(w) == old(self).depends_on(w),
    {
        self.set_edges(u, Vec::new());
    }

    /// The cells that `u` refers to.
    pub fn get_edges(&self, u: Index) -> (r: Vec<Index>)
        requires
            self.well_formed(),
        ensures
            r@ == self.depends_on(u),
    {
        match self.position(u) {
            Some(k) => {
                proof {
                    self.lemma_node(k as int);
                }
                copy_cells(&self.nodes[k].depends_on)
            },
            None => {
                proof {
                    self.lemma_no_node(u);
                }
                Vec::new()
            },
        }
    }

    /// The cells that refer to `v`, each once.
    pub fn dependents_of(&self, v: Index) -> (r: Vec<Index>)
        requires
            self.well_formed(),
        ensures
            r@.no_duplicates(),
            forall|u: Index| r@.contains(u) <==> self.edge(u, v),
    {
        let mut r: Vec<Index> = Vec::new();
        let mut i: usize = 0;
        while i < self.nodes.len()
            invariant
                self.well_formed(),
                i <= self.nodes.len(),
                r@.no_duplicates(),
                forall|u: Index|
                    r@.contains(u) <==> (exists|k: int|
                        0 <= k < i && #[trigger] self.nodes@[k].cell == u
                            && self.nodes@[k].depends_on@.contains(v)),
            decreases self.nodes.len() - i,
        {
            let ghost before = r@;
            let cell = self.nodes[i].cell;
            if index_of(&self.nodes[i].depends_on, v).is_some() {
                proof {
                    assert(!before.contains(cell)) by {
                        if before.contains(cell) {
                            let k = choose|k: int|
                                0 <= k < i && #[trigger] self.nodes@[k].cell == cell
                                    && self.nodes@[k].depends_on@.contains(v);
                            assert(self.nodes@[k].cell != self.nodes@[i as int].cell);
                        }
                    }
                }
                r.push(cell);
                proof {
                    assert forall|u: Index| r@.contains(u) <==> (exists|k: int|
                        0 <= k < i + 1 && #[trigger] self.nodes@[k].cell == u
                            && self.nodes@[k].depends_on@.contains(v)) by {
                        if r@.contains(u) {
                            let p = choose|p: int| 0 <= p < r@.len() && r@[p] == u;
                            if p < before.len() {
                                assert(before[p] == u);
                                assert(before.contains(u));
                            } else {
                                assert(self.nodes@[i as int].cell == u);
                            }
                        }
                        if exists|k: int|
                            0 <= k < i + 1 && #[trigger] self.nodes@[k].cell == u
                                && self.nodes@[k].depends_on@.contains(v) {
                            let k = choose|k: int|
                                0 <= k < i + 1 && #[trigger] self.nodes@[k].cell == u
                                    && self.nodes@[k].depends_on@.contains(v);
                            if k < i {
                                assert(before.contains(u));
                                let p = choose|p: int| 0 <= p < before.len() && before[p] == u;
                                assert(r@[p] == u);
                            } else {
                                assert(r@[before.len() as int] == u);
                            }
                        }
                    }
                }
            }
            i = i + 1;
        }
        proof {
            assert forall|u: Index| r@.contains(u) <==> self.edge(u, v) by {
                if r@.contains(u) {
                    let k = choose|k: int|
                        0 <= k < self.nodes@.len() && #[trigger] self.nodes@[k].cell == u
                            && self.nodes@[k].depends_on@.contains(v);
                    self.lemma_node(k);
                }
                if self.edge(u, v) {
                    assert(self.has_node(u));
                    let k = choose|k: int|
                        0 <= k < self.nodes@.len() && #[trigger] self.nodes@[k].cell == u;
                    self.lemma_node(k);
                }
            }
        }
        r
    }
}

/// Whether `d` is one of `members` and is not yet done.
spec fn pending(members: Seq<Index>, done: Seq<bool>, d: Index) -> bool {
    exists|j: int| 0 <= j < members.len() && j < done.len() && #[trigger] members[j] == d && !done[j]
}

/// A list of `n` marks, none set.
fn no_marks(n: usize) -> (r: Vec<bool>)
    ensures
        r@.len() == n,
        forall|k: int| 0 <= k < n ==> !r@[k],
{
    let mut r: Vec<bool> = Vec::new();
    while r.len() < n
        invariant
            r@.len() <= n,
            forall|k: int| 0 <= k < r@.len() ==> !r@[k],
        decreases n - r@.len(),
    {
        r.push(false);
    }
    r
}

impl DependencyGraph {
    /// Whether `d` is the cell of a marked node.
    spec fn marked_cell(&self, marks: Seq<bool>, d: Index) -> bool {
        exists|j: int|
            0 <= j < self.nodes@.len() && j < marks.len() && #[trigger] self.nodes@[j].cell == d
                && marks[j]
    }

    /// Whether node `k` refers to `u` or to the cell of a marked node.
    spec fn hits(&self, marks: Seq<bool>, u: Index, k: int) -> bool {
        exists|d: Index|
            #[trigger] self.nodes@[k].depends_on@.contains(d) && (d == u || self.marked_cell(
                marks,
                d,
            ))
    }

    /// Whether node `k` refers to `u` or to the cell of a marked node.
    fn hits_at(&self, marks: &Vec<bool>, u: Index, k: usize) -> (r: bool)
        requires
            self.well_formed(),
            marks@.len() == self.nodes@.len(),
            k < self.nodes@.len(),
        ensures
            r == self.hits(marks@, u, k as int),
    {
        let deps = &self.nodes[k].depends_on;
        let mut i: usize = 0;
        while i < deps.len()
            invariant
                self.well_formed(),
                marks@.len() == self.nodes@.len(),
                k < self.nodes@.len(),
                deps == &self.nodes@[k as int].depends_on,
                i <= deps.len(),
                forall|p: int|
                    0 <= p < i ==> deps@[p] != u && !self.marked_cell(marks@, #[trigger] deps@[p]),
            decreases deps.len() - i,
        {
            let d = deps[i];
            if d == u {
                assert(deps@.contains(d));
                return true;
            }
            match self.position(d) {
                Some(j) => {
                    if marks[j] {
                        assert(deps@.contains(d));
                        assert(self.marked_cell(marks@, d));
                        return true;
                    }
                    assert(!self.marked_cell(marks@, d)) by {
                        if self.marked_cell(marks@, d) {
                            let q = choose|q: int|
                                0 <= q < self.nodes@.len() && q < marks@.len()
                                    && #[trigger] self.nodes@[q].cell == d && marks@[q];
                            assert(q == j);
                        }
                    }
                },
                None => {},
            }
            i = i + 1;
        }
        assert(!self.hits(marks@, u, k as int)) by {
            if self.hits(marks@, u, k as int) {
                let d = choose|d: Index|
                    #[trigger] self.nodes@[k as int].depends_on@.contains(d) && (d == u
                        || self.marked_cell(marks@, d));
                let p = choose|p: int| 0 <= p < deps@.len() && deps@[p] == d;
                assert(!self.marked_cell(marks@, deps@[p]));
            }
        }
        false
    }

    /// One more edge in front of a path is a path.
    proof fn lemma_chain_longer(&self, a: Index, m: Index, b: Index)
        requires
            self.edge(a, m),
            m == b || self.depends_transitively(m, b),
        ensures
            self.depends_transitively(a, b),
    {
        if m == b {
            let path = seq![a, b];
            assert(self.is_path(path)) by {
                assert forall|i: int| 0 <= i < path.len() - 1 implies #[trigger] self.links(
                    path,
                    i,
                ) by {
                    assert(i == 0);
                }
            }
            assert(path[0] == a && path[path.len() - 1] == b);
        } else {
            let rest = choose|path: Seq<Index>|
                #[trigger] self.is_path(path) && path[0] == m && path[path.len() - 1] == b;
            let path = seq![a] + rest;
            assert(self.is_path(path)) by {
                assert forall|i: int| 0 <= i < path.len() - 1 implies #[trigger] self.links(
                    path,
                    i,
                ) by {
                    if i == 0 {
                        assert(path[1] == rest[0]);
                    } else {
                        assert(self.links(rest, i - 1));
                        assert(path[i] == rest[i - 1]);
                        assert(path[i + 1] == rest[i]);
                    }
                }
            }
            assert(path[0] == a && path[path.len() - 1] == rest[rest.len() - 1]);
        }
    }

    /// Where no unmarked node refers to `u` or to a marked cell, every cell
    /// that depends on `u` is marked.
    proof fn lemma_closed_complete(&self, marks: Seq<bool>, u: Index, a: Index, path: Seq<Index>)
        requires
            self.well_formed(),
            marks.len() == self.nodes@.len(),
            forall|k: int| 0 <= k < self.nodes@.len() && !marks[k] ==> !self.hits(marks, u, k),
            self.is_path(path),
            path[0] == a,
            path[path.len() - 1] == u,
        ensures
            self.marked_cell(marks, a),
        decreases path.len(),
    {
        let d = path[1];
        assert(self.links(path, 0));
        assert(self.has_node(a));
        let k = choose|k: int| 0 <= k < self.nodes@.len() && #[trigger] self.nodes@[k].cell == a;
        self.lemma_node(k);
        if path.len() > 2 {
            let rest = path.drop_first();
            assert(self.is_path(rest)) by {
                assert forall|i: int| 0 <= i < rest.len() - 1 implies #[trigger] self.links(
                    rest,
                    i,
                ) by {
                    assert(self.links(path, i + 1));
                    assert(rest[i] == path[i + 1]);
                    assert(rest[i + 1] == path[i + 2]);
                }
            }
            self.lemma_closed_complete(marks, u, d, rest);
        }
        assert(self.nodes@[k].depends_on@.contains(d));
        assert(self.hits(marks, u, k));
    }

    /// The cells that depend on `u` through one or more edges, each once.
    pub fn transitive_dependents(&self, u: Index) -> (r: Vec<Index>)
        requires
            self.well_formed(),
        ensures
            r@.no_duplicates(),
            forall|a: Index| r@.contains(a) <==> self.depends_transitively(a, u),
    {
        let n = self.nodes.len();
        let mut marks = no_marks(n);
        loop
            invariant
                self.well_formed(),
                n == self.nodes@.len(),
                marks@.len() == n,
                forall|k: int|
                    0 <= k < n && marks@[k] ==> self.depends_transitively(
                        #[trigger] self.nodes@[k].cell,
                        u,
                    ),
            ensures
                forall|k: int| 0 <= k < n && !marks@[k] ==> !self.hits(marks@, u, k),
            decreases unmarked(marks@),
        {
            let mut k: usize = 0;
            let mut found = false;
            while k < n && !found
                invariant
                    self.well_formed(),
                    n == self.nodes@.len(),
                    marks@.len() == n,
                    k <= n,
                    !found ==> forall|j: int| 0 <= j < k && !marks@[j] ==> !self.hits(marks@, u, j),
                    found ==> k < n && !marks@[k as int] && self.hits(marks@, u, k as int),
                decreases n - k + if found { 0int } else { 1int },
            {
                if !marks[k] && self.hits_at(&marks, u, k) {
                    found = true;
                } else {
                    k = k + 1;
                }
            }
            if !found {
                break ;
            }
            proof {
                let d = choose|d: Index|
                    #[trigger] self.nodes@[k as int].depends_on@.contains(d) && (d == u
                        || self.marked_cell(marks@, d));
                self.lemma_node(k as int);
                if d != u {
                    let j = choose|j: int|
                        0 <= j < self.nodes@.len() && j < marks@.len()
                            && #[trigger] self.nodes@[j].cell == d && marks@[j];
                    assert(self.depends_transitively(self.nodes@[j].cell, u));
                }
                self.lemma_chain_longer(self.nodes@[k as int].cell, d, u);
                lemma_mark(marks@, k as int);
            }
            marks.set(k, true);
        }
        let mut r: Vec<Index> = Vec::new();
        let mut i: usize = 0;
        while i < n
            invariant
                self.well_formed(),
                n == self.nodes@.len(),
                marks@.len() == n,
                i <= n,
                r@.no_duplicates(),
                forall|a: Index|
                    r@.contains(a) <==> (exists|j: int|
                        0 <= j < i && #[trigger] self.nodes@[j].cell == a && marks@[j]),
            decreases n - i,
        {
            let ghost before = r@;
            if marks[i] {
                let cell = self.nodes[i].cell;
                assert(!before.contains(cell)) by {
                    if before.contains(cell) {
                        let j = choose|j: int|
                            0 <= j < i && #[trigger] self.nodes@[j].cell == cell && marks@[j];
                        assert(self.nodes@[j].cell != self.nodes@[i as int].cell);
                    }
                }
                r.push(cell);
                proof {
                    assert forall|a: Index| r@.contains(a) <==> (exists|j: int|
                        0 <= j < i + 1 && #[trigger] self.nodes@[j].cell == a && marks@[j]) by {
                        if r@.contains(a) {
                            let p = choose|p: int| 0 <= p < r@.len() && r@[p] == a;
                            if p < before.len() {
                                assert(before[p] == a);
                                assert(before.contains(a));
                            } else {
                                assert(self.nodes@[i as int].cell == a);
                            }
                        }
                        if exists|j: int|
                            0 <= j < i + 1 && #[trigger] self.nodes@[j].cell == a && marks@[j] {
                            let j = choose|j: int|
                                0 <= j < i + 1 && #[trigger] self.nodes@[j].cell == a && marks@[j];
                            if j < i {
                                assert(before.contains(a));
                                let p = choose|p: int| 0 <= p < before.len() && before[p] == a;
                                assert(r@[p] == a);
                            } else {
                                assert(r@[before.len() as int] == a);
                            }
                        }
                    }
                }
            }
            i = i + 1;
        }
        proof {
            assert forall|a: Index| r@.contains(a) <==> self.depends_transitively(a, u) by {
                if r@.contains(a) {
                    let j = choose|j: int|
                        0 <= j < n && #[trigger] self.nodes@[j].cell == a && marks@[j];
                    assert(self.depends_transitively(self.nodes@[j].cell, u));
                }
                if self.depends_transitively(a, u) {
                    let path = choose|path: Seq<Index>|
                        #[trigger] self.is_path(path) && path[0] == a && path[path.len() - 1] == u;
                    self.lemma_closed_complete(marks@, u, a, path);
                    let j = choose|j: int|
                        0 <= j < self.nodes@.len() && j < marks@.len()
                            && #[trigger] self.nodes@[j].cell == a && marks@[j];
                    assert(0 <= j < n && self.nodes@[j].cell == a && marks@[j]);
                }
            }
        }
        r
    }

    /// Whether `u` depends on itself through one or more edges.
    pub fn has_cycle_through(&self, u: Index) -> (r: bool)
        requires
            self.well_formed(),
        ensures
            r == self.depends_transitively(u, u),
    {
        let dependents = self.transitive_dependents(u);
        index_of(&dependents, u).is_some()
    }

    /// Whether `a` is `u` or depends on it.
    pub open spec fn affected(&self, u: Index, a: Index) -> bool {
        a == u || self.depends_transitively(a, u)
    }

    /// A cell that refers to an affected cell is affected.
    pub proof fn lemma_affected_closed(&self, u: Index, a: Index, b: Index)
        requires
            self.edge(a, b),
            self.affected(u, b),
        ensures
            self.affected(u, a),
    {
        self.lemma_chain_longer(a, b, u);
    }

    /// Whether no cell that member `k` refers to is pending.
    spec fn ready(&self, members: Seq<Index>, done: Seq<bool>, k: int) -> bool {
        forall|d: Index| #[trigger] self.edge(members[k], d) ==> !pending(members, done, d)
    }

    /// Whether no cell that member `k` refers to is pending.
    fn ready_at(&self, members: &Vec<Index>, done: &Vec<bool>, k: usize) -> (r: bool)
        requires
            self.well_formed(),
            members@.no_duplicates(),
            done@.len() == members@.len(),
            k < members@.len(),
        ensures
            r == self.ready(members@, done@, k as int),
    {
        let deps = self.get_edges(members[k]);
        let mut i: usize = 0;
        while i < deps.len()
            invariant
                members@.no_duplicates(),
                done@.len() == members@.len(),
                k < members@.len(),
                deps@ == self.depends_on(members@[k as int]),
                i <= deps.len(),
                forall|p: int| 0 <= p < i ==> !pending(members@, done@, #[trigger] deps@[p]),
            decreases deps.len() - i,
        {
            let d = deps[i];
            match index_of(members, d) {
                Some(j) => {
                    if !done[j] {
                        assert(pending(members@, done@, d));
                        assert(self.edge(members@[k as int], d));
                        return false;
                    }
                    assert(!pending(members@, done@, d)) by {
                        if pending(members@, done@, d) {
                            let q = choose|q: int|
                                0 <= q < members@.len() && q < done@.len()
                                    && #[trigger] members@[q] == d && !done@[q];
                            assert(q == j);
                        }
                    }
                },
                None => {},
            }
            i = i + 1;
        }
        assert(self.ready(members@, done@, k as int)) by {
            assert forall|d: Index| #[trigger]
                self.edge(members@[k as int], d) implies !pending(members@, done@, d) by {
                let p = choose|p: int| 0 <= p < deps@.len() && deps@[p] == d;
                assert(!pending(members@, done@, deps@[p]));
            }
        }
        true
    }

    /// The cells to evaluate after an edit of `u`: `u` and every cell that
    /// depends on it.
    ///
    /// `order` holds those that can be evaluated, each after every affected
    /// cell that it refers to.  `in_cycle` holds the others: each of them
    /// refers to another one of them, so each lies on a cycle or depends on
    /// a cell that does.
    pub fn dependents_closure(&self, u: Index) -> (c: Closure)
        requires
            self.well_formed(),
        ensures
            c.order@.no_duplicates(),
            c.in_cycle@.no_duplicates(),
            forall|a: Index| !(c.order@.contains(a) && c.in_cycle@.contains(a)),
            forall|a: Index|
                (c.order@.contains(a) || c.in_cycle@.contains(a)) <==> self.affected(u, a),
            self.ordered(u, c.order@),
            forall|b: Index|
                c.in_cycle@.contains(b) ==> exists|d: Index|
                    c.in_cycle@.contains(d) && #[trigger] self.edge(b, d),
    {
        let dependents = self.transitive_dependents(u);
        let mut members: Vec<Index> = Vec::new();
        if index_of(&dependents, u).is_none() {
            members.push(u);
        }
        let ghost first = members@;
        let mut i: usize = 0;
        while i < dependents.len()
            invariant
                i <= dependents.len(),
                members@ == first + dependents@.subrange(0, i as int),
            decreases dependents.len() - i,
        {
            members.push(dependents[i]);
            i = i + 1;
        }
        proof {
            assert(dependents@.subrange(0, i as int) == dependents@);
            assert forall|a: Index| members@.contains(a) <==> self.affected(u, a) by {
                if members@.contains(a) {
                    let p = choose|p: int| 0 <= p < members@.len() && members@[p] == a;
                    if p >= first.len() {
                        assert(dependents@[p - first.len()] == a);
                        assert(dependents@.contains(a));
                    }
                }
                if self.depends_transitively(a, u) {
                    let p = choose|p: int| 0 <= p < dependents@.len() && dependents@[p] == a;
                    assert(members@[first.len() + p] == a);
                }
                if a == u {
                    if first.len() > 0 {
                        assert(members@[0] == u);
                    } else {
                        let p = choose|p: int| 0 <= p < dependents@.len() && dependents@[p] == u;
                        assert(members@[first.len() + p] == a);
                    }
                }
            }
            assert(members@.no_duplicates()) by {
                assert forall|p: int, q: int|
                    0 <= p < members@.len() && 0 <= q < members@.len() && p != q implies members@[p]
                    != members@[q] by {
                    if p >= first.len() && q >= first.len() {
                        assert(dependents@[p - first.len()] != dependents@[q - first.len()]);
                    } else if p >= first.len() {
                        assert(dependents@.contains(dependents@[p - first.len()]));
                    } else if q >= first.len() {
                        assert(dependents@.contains(dependents@[q - first.len()]));
                    }
                }
            }
        }
        let n = members.len();
        let mut done = no_marks(n);
        let mut order: Vec<Index> = Vec::new();
        loop
            invariant
                self.well_formed(),
                members@.no_duplicates(),
                n == members@.len(),
                done@.len() == n,
                order@.no_duplicates(),
                forall|a: Index| members@.contains(a) <==> self.affected(u, a),
                forall|a: Index|
                    order@.contains(a) <==> (exists|j: int|
                        0 <= j < n && #[trigger] members@[j] == a && done@[j]),
                forall|p: int, d: Index|
                    0 <= p < order@.len() && #[trigger] self.edge(order@[p], d) && self.affected(
                        u,
                        d,
                    ) ==> exists|q: int| 0 <= q < p && order@[q] == d,
            ensures
                forall|k: int| 0 <= k < n && !done@[k] ==> !self.ready(members@, done@, k),
            decreases unmarked(done@),
        {
            let mut k: usize = 0;
            let mut found = false;
            while k < n && !found
                invariant
                    self.well_formed(),
                    members@.no_duplicates(),
                    n == members@.len(),
                    done@.len() == n,
                    k <= n,
                    !found ==> forall|j: int|
                        0 <= j < k && !done@[j] ==> !self.ready(members@, done@, j),
                    found ==> k < n && !done@[k as int] && self.ready(members@, done@, k as int),
                decreases n - k + if found { 0int } else { 1int },
            {
                if !done[k] && self.ready_at(&members, &done, k) {
                    found = true;
                } else {
                    k = k + 1;
                }
            }
            if !found {
                break ;
            }
            let cell = members[k];
            let ghost before = order@;
            let ghost marks = done@;
            proof {
                lemma_mark(done@, k as int);
                assert(!before.contains(cell)) by {
                    if before.contains(cell) {
                        let j = choose|j: int|
                            0 <= j < n && #[trigger] members@[j] == cell && marks[j];
                        assert(j == k);
                    }
                }
            }
            done.set(k, true);
            order.push(cell);
            proof {
                assert forall|a: Index| order@.contains(a) <==> (exists|j: int|
                    0 <= j < n && #[trigger] members@[j] == a && done@[j]) by {
                    if order@.contains(a) {
                        let p = choose|p: int| 0 <= p < order@.len() && order@[p] == a;
                        if p < before.len() {
                            assert(before[p] == a);
                            assert(before.contains(a));
                            let j = choose|j: int|
                                0 <= j < n && #[trigger] members@[j] == a && marks[j];
                            assert(done@[j]);
                        } else {
                            assert(members@[k as int] == a && done@[k as int]);
                        }
                    }
                    if exists|j: int| 0 <= j < n && #[trigger] members@[j] == a && done@[j] {
                        let j = choose|j: int|
                            0 <= j < n && #[trigger] members@[j] == a && done@[j];
                        if j == k {
                            assert(order@[before.len() as int] == a);
                        } else {
                            assert(marks[j]);
                            assert(before.contains(a));
                            let p = choose|p: int| 0 <= p < before.len() && before[p] == a;
                            assert(order@[p] == a);
                        }
                    }
                }
                assert forall|p: int, d: Index|
                    0 <= p < order@.len() && #[trigger] self.edge(order@[p], d) && self.affected(
                        u,
                        d,
                    ) implies exists|q: int| 0 <= q < p && order@[q] == d by {
                    if p < before.len() {
                        assert(order@[p] == before[p]);
                        let q = choose|q: int| 0 <= q < p && before[q] == d;
                        assert(order@[q] == d);
                    } else {
                        assert(members@.contains(d));
                        let j = choose|j: int| 0 <= j < members@.len() && members@[j] == d;
                        assert(!pending(members@, marks, d));
                        assert(marks[j]);
                        assert(before.contains(d));
                        let q = choose|q: int| 0 <= q < before.len() && before[q] == d;
                        assert(order@[q] == d);
                    }
                }
            }
        }
        let mut in_cycle: Vec<Index> = Vec::new();
        let mut i: usize = 0;
        while i < n
            invariant
                members@.no_duplicates(),
                n == members@.len(),
                done@.len() == n,
                i <= n,
                in_cycle@.no_duplicates(),
                forall|a: Index|
                    in_cycle@.contains(a) <==> (exists|j: int|
                        0 <= j < i && #[trigger] members@[j] == a && !done@[j]),
            decreases n - i,
        {
            let ghost before = in_cycle@;
            if !done[i] {
                let cell = members[i];
                assert(!before.contains(cell)) by {
                    if before.contains(cell) {
                        let j = choose|j: int|
                            0 <= j < i && #[trigger] members@[j] == cell && !done@[j];
                        assert(j == i);
                    }
                }
                in_cycle.push(cell);
                proof {
                    assert forall|a: Index| in_cycle@.contains(a) <==> (exists|j: int|
                        0 <= j < i + 1 && #[trigger] members@[j] == a && !done@[j]) by {
                        if in_cycle@.contains(a) {
                            let p = choose|p: int| 0 <= p < in_cycle@.len() && in_cycle@[p] == a;
                            if p < before.len() {
                                assert(before[p] == a);
                                assert(before.contains(a));
                            } else {
                                assert(members@[i as int] == a);
                            }
                        }
                        if exists|j: int|
                            0 <= j < i + 1 && #[trigger] members@[j] == a && !done@[j] {
                            let j = choose|j: int|
                                0 <= j < i + 1 && #[trigger] members@[j] == a && !done@[j];
                            if j < i {
                                assert(before.contains(a));
                                let p = choose|p: int| 0 <= p < before.len() && before[p] == a;
                                assert(in_cycle@[p] == a);
                            } else {
                                assert(in_cycle@[before.len() as int] == a);
                            }
                        }
                    }
                }
            }
            i = i + 1;
        }
        proof {
            assert forall|a: Index| !(order@.contains(a) && in_cycle@.contains(a)) by {
                if order@.contains(a) && in_cycle@.contains(a) {
                    let j = choose|j: int| 0 <= j < n && #[trigger] members@[j] == a && done@[j];
                    let q = choose|q: int| 0 <= q < n && #[trigger] members@[q] == a && !done@[q];
                    assert(j == q);
                }
            }
            assert forall|a: Index|
                (order@.contains(a) || in_cycle@.contains(a)) <==> self.affected(u, a) by {
                if order@.contains(a) {
                    let j = choose|j: int| 0 <= j < n && #[trigger] members@[j] == a && done@[j];
                    assert(members@.contains(a));
                }
                if in_cycle@.contains(a) {
                    let j = choose|j: int| 0 <= j < n && #[trigger] members@[j] == a && !done@[j];
                    assert(members@.contains(a));
                }
                if self.affected(u, a) {
                    assert(members@.contains(a));
                    let j = choose|j: int| 0 <= j < members@.len() && members@[j] == a;
                    if done@[j] {
                        assert(members@[j] == a && done@[j]);
                        assert(order@.contains(a));
                    } else {
                        assert(members@[j] == a && !done@[j]);
                        assert(in_cycle@.contains(a));
                    }
                }
            }
            assert forall|b: Index| in_cycle@.contains(b) implies exists|d: Index|
                in_cycle@.contains(d) && #[trigger] self.edge(b, d) by {
                let j = choose|j: int| 0 <= j < n && #[trigger] members@[j] == b && !done@[j];
                assert(!self.ready(members@, done@, j));
                let d = choose|d: Index|
                    #[trigger] self.edge(members@[j], d) && pending(members@, done@, d);
                let q = choose|q: int|
                    0 <= q < members@.len() && q < done@.len() && #[trigger] members@[q] == d
                        && !done@[q];
                assert(members@[q] == d && !done@[q]);
                assert(in_cycle@.contains(d));
            }
        }
        Closure { order, in_cycle }
    }
}

impl DependencyGraph {
    /// Whether every cell of `order` stands after each affected cell that
    /// it refers to.
    pub open spec fn ordered(&self, u: Index, order: Seq<Index>) -> bool {
        forall|p: int, d: Index|
            0 <= p < order.len() && #[trigger] self.edge(order[p], d) && self.affected(u, d)
                ==> exists|q: int| 0 <= q < p && order[q] == d
    }

    /// A cell that depends on an affected cell is affected.
    proof fn lemma_affected_along(&self, u: Index, path: Seq<Index>)
        requires
            self.is_path(path),
            self.affected(u, path[path.len() - 1]),
        ensures
            self.affected(u, path[0]),
        decreases path.len(),
    {
        assert(self.links(path, 0));
        if path.len() > 2 {
            let rest = path.drop_first();
            assert(self.is_path(rest)) by {
                assert forall|i: int| 0 <= i < rest.len() - 1 implies #[trigger] self.links(
                    rest,
                    i,
                ) by {
                    assert(self.links(path, i + 1));
                    assert(rest[i] == path[i + 1]);
                    assert(rest[i + 1] == path[i + 2]);
                }
            }
            assert(rest[rest.len() - 1] == path[path.len() - 1]);
            self.lemma_affected_along(u, rest);
            assert(rest[0] == path[1]);
        }
        self.lemma_affected_closed(u, path[0], path[1]);
    }

    /// In the order of evaluation a cell stands after the affected cell
    /// that a path leads to from it.
    proof fn lemma_order_along(&self, u: Index, order: Seq<Index>, p: int, path: Seq<Index>)
        requires
            self.ordered(u, order),
            0 <= p < order.len(),
            self.is_path(path),
            path[0] == order[p],
            self.affected(u, path[path.len() - 1]),
        ensures
            exists|q: int| 0 <= q < p && order[q] == path[path.len() - 1],
        decreases path.len(),
    {
        let next = path[1];
        assert(self.links(path, 0));
        if path.len() == 2 {
            assert(self.edge(order[p], next));
        } else {
            let rest = path.drop_first();
            assert(self.is_path(rest)) by {
                assert forall|i: int| 0 <= i < rest.len() - 1 implies #[trigger] self.links(
                    rest,
                    i,
                ) by {
                    assert(self.links(path, i + 1));
                    assert(rest[i] == path[i + 1]);
                    assert(rest[i + 1] == path[i + 2]);
                }
            }
            assert(rest[rest.len() - 1] == path[path.len() - 1]);
            assert(rest[0] == next);
            self.lemma_affected_along(u, rest);
            assert(self.edge(order[p], next));
            let before = choose|q: int| 0 <= q < p && order[q] == next;
            self.lemma_order_along(u, order, before, rest);
        }
    }

    /// In the order of evaluation every cell stands after each affected
    /// cell that it depends on, through however many edges.
    pub proof fn lemma_order_respects_paths(&self, u: Index, order: Seq<Index>, p: int, d: Index)
        requires
            self.ordered(u, order),
            0 <= p < order.len(),
            self.depends_transitively(order[p], d),
            self.affected(u, d),
        ensures
            exists|q: int| 0 <= q < p && order[q] == d,
    {
        let path = choose|path: Seq<Index>|
            #[trigger] self.is_path(path) && path[0] == order[p] && path[path.len() - 1] == d;
        self.lemma_order_along(u, order, p, path);
    }
}

} // verus!
