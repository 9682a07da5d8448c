use spreadsheet::common_types::Index;
use spreadsheet::dependency_graph::DependencyGraph;

fn cell(x: usize) -> Index {
    Index { x, y: 0 }
}

fn graph(edges: &[(usize, &[usize])]) -> DependencyGraph {
    let mut graph = DependencyGraph::new();
    for (from, to) in edges {
        graph.set_edges(cell(*from), to.iter().map(|x| cell(*x)).collect());
    }
    graph
}

fn sorted(mut cells: Vec<Index>) -> Vec<usize> {
    cells.sort_by_key(|c| c.x);
    cells.iter().map(|c| c.x).collect()
}

fn place(order: &[Index], x: usize) -> usize {
    order.iter().position(|c| c.x == x).unwrap()
}

#[test]
fn test_edges_are_replaced() {
    let mut g = graph(&[(1, &[2, 3])]);
    assert_eq!(g.get_edges(cell(1)), vec![cell(2), cell(3)]);
    assert_eq!(g.get_edges(cell(2)), vec![]);
    g.set_edges(cell(1), vec![cell(4)]);
    assert_eq!(g.get_edges(cell(1)), vec![cell(4)]);
    assert_eq!(sorted(g.dependents_of(cell(2))), Vec::<usize>::new());
    assert_eq!(sorted(g.dependents_of(cell(4))), vec![1]);
    g.clear(cell(1));
    assert_eq!(g.get_edges(cell(1)), vec![]);
    assert_eq!(sorted(g.dependents_of(cell(4))), Vec::<usize>::new());
}

#[test]
fn test_dependents_of_a_cell() {
    let g = graph(&[(1, &[0]), (2, &[0, 1]), (3, &[1]), (4, &[])]);
    assert_eq!(sorted(g.dependents_of(cell(0))), vec![1, 2]);
    assert_eq!(sorted(g.dependents_of(cell(1))), vec![2, 3]);
    assert_eq!(sorted(g.dependents_of(cell(3))), Vec::<usize>::new());
    assert_eq!(sorted(g.dependents_of(cell(9))), Vec::<usize>::new());
}

#[test]
fn test_transitive_dependents() {
    let g = graph(&[(1, &[0]), (2, &[1]), (3, &[2]), (4, &[9]), (5, &[3, 4])]);
    assert_eq!(sorted(g.transitive_dependents(cell(0))), vec![1, 2, 3, 5]);
    assert_eq!(sorted(g.transitive_dependents(cell(2))), vec![3, 5]);
    assert_eq!(sorted(g.transitive_dependents(cell(9))), vec![4, 5]);
    assert_eq!(sorted(g.transitive_dependents(cell(5))), Vec::<usize>::new());
}

#[test]
fn test_has_cycle_through() {
    let g = graph(&[(0, &[1]), (1, &[2]), (2, &[0]), (3, &[0]), (4, &[4]), (5, &[6])]);
    assert!(g.has_cycle_through(cell(0)));
    assert!(g.has_cycle_through(cell(1)));
    assert!(g.has_cycle_through(cell(2)));
    assert!(!g.has_cycle_through(cell(3)));
    assert!(g.has_cycle_through(cell(4)));
    assert!(!g.has_cycle_through(cell(5)));
    assert!(!g.has_cycle_through(cell(6)));
    assert!(!g.has_cycle_through(cell(7)));
}

#[test]
fn test_closure_puts_cells_after_what_they_refer_to() {
    let g = graph(&[(4, &[2, 3]), (3, &[1]), (2, &[1]), (1, &[0]), (5, &[4, 0]), (6, &[7])]);
    let closure = g.dependents_closure(cell(0));
    assert_eq!(sorted(closure.order.clone()), vec![0, 1, 2, 3, 4, 5]);
    assert!(closure.in_cycle.is_empty());
    let order = &closure.order;
    assert!(place(order, 0) < place(order, 1));
    assert!(place(order, 1) < place(order, 2));
    assert!(place(order, 1) < place(order, 3));
    assert!(place(order, 2) < place(order, 4));
    assert!(place(order, 3) < place(order, 4));
    assert!(place(order, 4) < place(order, 5));
}

#[test]
fn test_closure_of_a_cell_without_dependents() {
    let g = graph(&[(1, &[0])]);
    let closure = g.dependents_closure(cell(1));
    assert_eq!(closure.order, vec![cell(1)]);
    assert!(closure.in_cycle.is_empty());
    let closure = g.dependents_closure(cell(8));
    assert_eq!(closure.order, vec![cell(8)]);
    assert!(closure.in_cycle.is_empty());
}

#[test]
fn test_closure_sets_cycles_and_their_dependents_apart() {
    let g = graph(&[(0, &[1]), (1, &[2]), (2, &[0]), (3, &[2]), (4, &[3]), (5, &[9])]);
    let closure = g.dependents_closure(cell(0));
    assert!(closure.order.is_empty());
    assert_eq!(sorted(closure.in_cycle), vec![0, 1, 2, 3, 4]);
}

#[test]
fn test_closure_evaluates_what_does_not_reach_the_cycle() {
    let g = graph(&[(1, &[0]), (2, &[1, 3]), (3, &[2]), (4, &[1])]);
    let closure = g.dependents_closure(cell(0));
    assert_eq!(sorted(closure.order.clone()), vec![0, 1, 4]);
    assert_eq!(sorted(closure.in_cycle), vec![2, 3]);
    assert!(place(&closure.order, 0) < place(&closure.order, 1));
    assert!(place(&closure.order, 1) < place(&closure.order, 4));
}
