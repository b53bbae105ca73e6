use dsa_in_rust::graphs::digraph::DiGraph;
use dsa_in_rust::graphs::topological_sorting::topological_sort;
use dsa_in_rust::graphs::topological_sorting::topological_sort_preserving;

#[test]
fn produces_correct_result_on_acyclic_graph() {
    let mut g = DiGraph::new();

    g.add_vertex(1).expect("Adding a unique vertex should've worked!");
    g.add_edge(&1, &2).expect("Adding this edge should've worked!");

    g.add_edge(&2, &3).expect("Adding this edge should've worked!");
    g.add_edge(&2, &4).expect("Adding this edge should've worked!");
    g.add_edge(&2, &5).expect("Adding this edge should've worked!");

    g.add_edge(&4, &5).expect("Adding this edge should've worked!");
    g.add_edge(&4, &6).expect("Adding this edge should've worked!");

    g.add_edge(&5, &7).expect("Adding this edge should've worked!");
    g.add_edge(&6, &7).expect("Adding this edge should've worked!");

    let sorted = topological_sort(&mut g).expect("This graph is acylic!");
    assert!(sorted.eq(&[1, 2, 3, 4, 5, 6, 7]));
}

#[test]
fn produces_correct_result_on_cyclic_graph() {
    let mut g = DiGraph::new();

    g.add_vertex(1).expect("Adding a unique vertex should've worked!");

    g.add_edge(&1, &2).expect("Adding this edge should've worked!");
    g.add_edge(&2, &3).expect("Adding this edge should've worked!");
    g.add_edge(&3, &4).expect("Adding this edge should've worked!");
    g.add_edge(&4, &1).expect("Adding this edge should've worked!");

    let sorted = topological_sort(&mut g);
    assert!(sorted.is_none());
}

#[test]
fn produces_correct_result_on_wikipedia_example() {
    // See: https://en.wikipedia.org/wiki/Topological_sorting
    let mut g = DiGraph::new();

    g.add_vertex(5).expect("Adding a unique vertex should've worked!");
    g.add_vertex(7).expect("Adding a unique vertex should've worked!");
    g.add_vertex(3).expect("Adding a unique vertex should've worked!");
    g.add_vertex(8).expect("Adding a unique vertex should've worked");
    g.add_vertex(2).expect("Adding a unique vertex should've worked");
    g.add_vertex(9).expect("Adding a unique vertex should've worked");
    g.add_vertex(11).expect("Adding a unique vertex should've worked");
    g.add_vertex(10).expect("Adding a unique vertex should've worked");

    g.add_edge(&5, &11).expect("Adding this edge should've worked!");

    g.add_edge(&7, &11).expect("Adding this edge should've worked!");
    g.add_edge(&7, &8).expect("Adding this edge should've worked!");

    g.add_edge(&3, &8).expect("Adding this edge should've worked!");
    g.add_edge(&3, &10).expect("Adding this edge should've worked!");

    g.add_edge(&11, &2).expect("Adding this edge should've worked!");
    g.add_edge(&11, &9).expect("Adding this edge should've worked!");
    g.add_edge(&11, &10).expect("Adding this edge should've worked!");

    g.add_edge(&8, &9).expect("Adding this edge should've worked!");

    let sorted = topological_sort(&mut g).expect("This graph is acyclic!");
    // The result depends on the insertion order of the vertex collection
    // and there being 3 different valid start locations
    println!("Topological ordering is: {:?}", sorted);
}

fn position_of(order: &[u64], x: u64) -> usize {
    order.iter().position(|&y| y == x).expect("vertex missing from the order")
}

#[test]
fn acyclic_order_respects_every_edge() {
    let edges: [(u64, u64); 9] = [
        (5, 11),
        (7, 11),
        (7, 8),
        (3, 8),
        (3, 10),
        (11, 2),
        (11, 9),
        (11, 10),
        (8, 9),
    ];
    let mut g = DiGraph::new();
    for v in [5, 7, 3, 8, 2, 9, 11, 10] {
        g.add_vertex(v).expect("Adding a unique vertex should've worked!");
    }
    for (u, v) in edges {
        g.add_edge(&u, &v).expect("Adding this edge should've worked!");
    }

    let sorted = topological_sort(&mut g).expect("This graph is acyclic!");
    assert_eq!(sorted.len(), 8);
    for (u, v) in edges {
        assert!(position_of(&sorted, u) < position_of(&sorted, v));
    }
}

#[test]
fn empty_graph_sorts_to_empty_order() {
    let mut g = DiGraph::new();
    let sorted = topological_sort(&mut g).expect("The empty graph is acyclic!");
    assert_eq!(sorted.len(), 0);
}

#[test]
fn self_loop_is_a_cycle() {
    let mut g = DiGraph::new();
    g.add_vertex(1).expect("Adding a unique vertex should've worked!");
    g.add_edge(&1, &1).expect("Adding this edge should've worked!");

    assert!(topological_sort(&mut g).is_none());
}

#[test]
fn preserving_sort_keeps_the_graph() {
    let mut g = DiGraph::new();
    g.add_vertex(1).expect("Adding a unique vertex should've worked!");
    g.add_edge(&1, &2).expect("Adding this edge should've worked!");
    g.add_edge(&2, &3).expect("Adding this edge should've worked!");

    let sorted = topological_sort_preserving(&g).expect("This graph is acyclic!");
    assert_eq!(sorted, vec![1, 2, 3]);
    // The graph is untouched.
    assert_eq!(g.num_edges(), 2);
    assert!(g.are_neighbors(&1, &2));
    assert!(g.are_neighbors(&2, &3));

    let mut c = DiGraph::new();
    c.add_vertex(1).expect("Adding a unique vertex should've worked!");
    c.add_edge(&1, &2).expect("Adding this edge should've worked!");
    c.add_edge(&2, &1).expect("Adding this edge should've worked!");
    assert!(topological_sort_preserving(&c).is_none());
    assert_eq!(c.num_edges(), 2);
}

#[test]
fn sort_consumes_the_graph_edges() {
    let mut g = DiGraph::new();
    g.add_vertex(1).expect("Adding a unique vertex should've worked!");
    g.add_edge(&1, &2).expect("Adding this edge should've worked!");
    g.add_edge(&2, &3).expect("Adding this edge should've worked!");

    let sorted = topological_sort(&mut g).expect("This graph is acyclic!");
    assert_eq!(sorted, vec![1, 2, 3]);
    // The vertices survive; the edges were consumed as working state.
    assert_eq!(g.num_vertices(), 3);
    assert_eq!(g.num_edges(), 0);
}
