use sr_core::graph::Graph;

#[test]
fn generate_some_edges() {
    let mut g = Graph::new(1000);
    let mut rng = rand::rng();
    g.add_random_edges(7777, &mut rng);
    assert_eq!(7777, g.edges.len());
}

#[test]
fn cloned_graph_holds_the_same_edges() {
    let mut g = Graph::new(100);
    g.add_edges(&vec![(1usize, 2usize), (3, 7)]);
    let h = g.clone();
    assert_eq!(g.edges.len(), h.edges.len());
    assert_eq!(g.edges.len(), 2);
    for c in g.edges.iter() {
        assert!(h.edges.contains(c));
    }
}

#[test]
fn added_edges_are_packed_and_present() {
    let mut g = Graph::new(1000);
    g.add_edges(&vec![(5usize, 9usize)]);
    let code: u64 = (5u64 << 32) | 9u64;
    assert!(g.edges.contains(&code));
    assert_eq!(g.edges.len(), 1);
}
