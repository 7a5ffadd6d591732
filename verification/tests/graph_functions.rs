use block_graph::dependency_resolution::{DependencyChain, DependsOn, Graph, Node};

fn names<T>(order: &Vec<&Node<T>>) -> Vec<String> {
    order.iter().map(|n| n.name.clone()).collect()
}

#[test]
fn pairs_come_in_three_shapes() {
    assert_eq!(2usize.on(5), (2, 5));
    assert_eq!((1usize, 2usize).list_dep(), vec![(1, 2)]);
    assert_eq!([(1usize, 2usize), (3, 4)].list_dep(), vec![(1, 2), (3, 4)]);
    assert_eq!(vec![(1usize, 2usize), (3, 4), (5, 6)].list_dep(), vec![(1, 2), (3, 4), (5, 6)]);
    assert_eq!(Vec::<(usize, usize)>::new().list_dep(), vec![]);
}

#[test]
fn add_hands_out_handles_in_order() {
    let mut g = Graph::new_debug();
    assert_eq!(g.add("A"), 0);
    assert_eq!(g.add("B"), 1);
    assert_eq!(g.nodes[1].handle, 1);
    assert_eq!(g.nodes[1].name, "B");
    assert!(g.nodes[1].depends_on.is_empty());
    g.reset();
    assert!(g.nodes.is_empty());
    assert_eq!(g.add("C"), 0);
}

#[test]
fn dependencies_are_kept_on_both_sides() {
    let mut g = Graph::new_debug();
    let a = g.add("A");
    let b = g.add("B");
    let c = g.add("C");
    g.specify_dependencies([a.on(b), a.on(c), b.on(c), a.on(b)]);
    assert_eq!(g.nodes[a].depends_on, vec![b, c, b]);
    assert_eq!(g.nodes[b].depends_on, vec![c]);
    assert_eq!(g.nodes[c].is_dependent_of, vec![a, b]);
    assert_eq!(g.nodes[b].is_dependent_of, vec![a, a]);
    assert!(g.nodes[c].depends_on.is_empty());
    assert!(g.nodes[a].is_dependent_of.is_empty());
}

#[test]
fn a_node_may_depend_on_itself() {
    let mut g = Graph::new_debug();
    let a = g.add("A");
    g.specify_dependencies(a.on(a));
    assert_eq!(g.nodes[a].depends_on, vec![a]);
    assert_eq!(g.nodes[a].is_dependent_of, vec![a]);
    assert!(!g.is_acyclic());
    let order = g.calculate_order();
    assert!(!g.is_order_valid(&order));
}

#[test]
fn add_dependency_finds_nodes_by_what_they_carry() {
    let mut g: Graph<usize> = Graph::default();
    g.add(40usize);
    g.add(50usize);
    g.add(40usize);
    assert_eq!(g.position(&50), Some(1));
    assert_eq!(g.position(&40), Some(0));
    assert_eq!(g.position(&7), None);
    g.add_dependency(40, 50);
    assert_eq!(g.nodes[0].depends_on, vec![1]);
    assert_eq!(g.nodes[1].is_dependent_of, vec![0]);
    assert!(g.nodes[2].depends_on.is_empty());
    // A value that no node carries changes nothing.
    g.add_dependency(50, 7);
    g.add_dependency(7, 50);
    assert!(g.nodes[1].depends_on.is_empty());
    assert_eq!(g.nodes[1].is_dependent_of, vec![0]);
    assert_eq!(g.calculate_order_indices(), vec![1, 0, 2]);
}

#[test]
fn reachability_follows_edges_and_counts_members() {
    let mut g = Graph::new_debug();
    let a = g.add("A");
    let b = g.add("B");
    let c = g.add("C");
    let d = g.add("D");
    g.specify_dependencies(vec![a.on(b), b.on(c)]);
    assert!(g.does_transient_dependency_exist(&vec![a], c));
    assert!(g.does_transient_dependency_exist(&vec![a], a));
    assert!(g.does_transient_dependency_exist(&vec![d, b], c));
    assert!(!g.does_transient_dependency_exist(&vec![c], a));
    assert!(!g.does_transient_dependency_exist(&vec![a], d));
    assert!(!g.does_transient_dependency_exist(&vec![], a));
    assert!(!g.does_transient_dependency_exist(&vec![a], 99));
}

#[test]
fn reachability_comes_to_an_end_on_a_cycle() {
    let mut g = Graph::new_debug();
    let a = g.add("A");
    let b = g.add("B");
    let c = g.add("C");
    let lone = g.add("lone");
    g.specify_dependencies([a.on(b), b.on(c), c.on(a)]);
    assert!(!g.does_transient_dependency_exist(&vec![a], lone));
    assert!(g.does_transient_dependency_exist(&vec![a], a));
    assert!(!g.is_acyclic());
    // Every node still gets its place in the order.
    let mut order = g.calculate_order_indices();
    order.sort();
    assert_eq!(order, vec![0, 1, 2, 3]);
}

#[test]
fn insert_index_is_before_the_first_dependent() {
    let mut g = Graph::new_debug();
    let a = g.add("A");
    let b = g.add("B");
    let c = g.add("C");
    let d = g.add("D");
    g.specify_dependencies(vec![b.on(d), c.on(b)]);
    let mut placed: Vec<&Node<()>> = vec![&g.nodes[a], &g.nodes[b], &g.nodes[c]];
    assert_eq!(g.find_insert_index(&mut placed, d), 1);
    assert_eq!(placed.len(), 3);
    let mut none: Vec<&Node<()>> = vec![];
    assert_eq!(g.find_insert_index(&mut none, d), 0);
    let mut unrelated: Vec<&Node<()>> = vec![&g.nodes[a], &g.nodes[d]];
    assert_eq!(g.find_insert_index(&mut unrelated, c), 2);
}

#[test]
fn order_of_nodes_and_of_handles_agree() {
    let mut g = Graph::new_debug();
    let c = g.add("C");
    let b = g.add("B");
    let a = g.add("A");
    let e = g.add("E");
    let d = g.add("D");
    g.specify_dependencies(vec![d.on(e), a.on(c), c.on(e), b.on(d), a.on(b)]);
    let order = g.calculate_order();
    let indices = g.calculate_order_indices();
    let handles: Vec<usize> = order.iter().map(|n| n.handle).collect();
    assert_eq!(handles, indices);
    assert_eq!(names(&order), vec!["E", "C", "D", "B", "A"]);
    assert!(g.is_acyclic());
}

#[test]
fn an_order_with_a_dependency_behind_its_dependent_is_not_valid() {
    let mut g = Graph::new_debug();
    let a = g.add("A");
    let b = g.add("B");
    g.specify_dependencies(a.on(b));
    let wrong: Vec<&Node<()>> = vec![&g.nodes[a], &g.nodes[b]];
    assert!(!g.is_order_valid(&wrong));
    let right: Vec<&Node<()>> = vec![&g.nodes[b], &g.nodes[a]];
    assert!(g.is_order_valid(&right));
    let partial: Vec<&Node<()>> = vec![&g.nodes[b]];
    assert!(g.is_order_valid(&partial));
    let missing: Vec<&Node<()>> = vec![&g.nodes[a]];
    assert!(!g.is_order_valid(&missing));
    assert!(g.is_order_valid(&vec![]));
}

#[test]
fn unrelated_nodes_keep_their_places() {
    let mut g = Graph::new_debug();
    for name in ["A", "B", "C", "D"] {
        g.add(name);
    }
    assert_eq!(g.calculate_order_indices(), vec![0, 1, 2, 3]);
    assert!(g.is_acyclic());
}
