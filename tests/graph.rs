use graph_layout::{build_graph, Dataset, Edge, Graph, Link};

fn record(id: &str, targets: &[&str]) -> Dataset {
    Dataset {
        identifier: id.to_string(),
        links: targets
            .iter()
            .map(|t| Link { target: t.to_string() })
            .collect(),
    }
}

#[test]
fn edge_new_keeps_direction() {
    let e = Edge::new(3, 7);
    assert_eq!(e.src, 3);
    assert_eq!(e.trg, 7);
    assert_ne!(e, Edge::new(7, 3));
}

#[test]
fn new_graph_is_empty() {
    let g = Graph::new();
    assert_eq!(g.n, 0);
    assert!(g.edges.is_empty());
    assert!(g.names.is_empty());
}

#[test]
fn add_vertex_assigns_sequential_indices() {
    let mut g = Graph::new();
    assert_eq!(g.add_vertex("a"), 0);
    assert_eq!(g.add_vertex("b"), 1);
    assert_eq!(g.add_vertex("c"), 2);
    assert_eq!(g.n, 3);
    assert_eq!(g.names, vec!["a".to_string(), "b".to_string(), "c".to_string()]);
}

#[test]
fn add_vertex_is_idempotent() {
    let mut g = Graph::new();
    g.add_vertex("x");
    let n0 = g.n;
    let first = g.add_vertex("name");
    let second = g.add_vertex("name");
    assert_eq!(first, second);
    assert_eq!(g.n, n0 + 1);
    assert_eq!(g.add_vertex("x"), 0);
    assert_eq!(g.n, n0 + 1);
}

#[test]
fn add_vertex_matches_exact_names_only() {
    let mut g = Graph::new();
    let a = g.add_vertex("Alpha");
    let b = g.add_vertex("alpha");
    let c = g.add_vertex("Alpha ");
    assert_eq!((a, b, c), (0, 1, 2));
    assert_eq!(g.n, 3);
}

#[test]
fn add_vertex_leaves_edges_alone() {
    let mut g = Graph::new();
    g.edges.push(Edge::new(0, 0));
    g.add_vertex("v");
    assert_eq!(g.edges, vec![Edge::new(0, 0)]);
}

#[test]
fn build_graph_of_nothing_is_empty() {
    let g = build_graph(&Vec::new());
    assert_eq!(g.n, 0);
    assert!(g.edges.is_empty());
}

#[test]
fn build_graph_record_without_links_gives_no_vertex() {
    let g = build_graph(&vec![record("lonely", &[])]);
    assert_eq!(g.n, 0);
    assert!(g.edges.is_empty());
    assert!(g.names.is_empty());
}

#[test]
fn build_graph_single_link_gives_two_edges() {
    let g = build_graph(&vec![record("A", &["B"])]);
    assert_eq!(g.n, 2);
    assert_eq!(g.names, vec!["A".to_string(), "B".to_string()]);
    assert_eq!(g.edges, vec![Edge::new(0, 1), Edge::new(1, 0)]);
}

#[test]
fn build_graph_skips_records_without_links_among_others() {
    let g = build_graph(&vec![record("z", &[]), record("A", &["B"]), record("y", &[])]);
    assert_eq!(g.n, 2);
    assert_eq!(g.names, vec!["A".to_string(), "B".to_string()]);
    assert_eq!(g.edges, vec![Edge::new(0, 1), Edge::new(1, 0)]);
}

#[test]
fn build_graph_shares_vertices_between_records() {
    let g = build_graph(&vec![record("A", &["B", "C"]), record("C", &["A"])]);
    assert_eq!(g.n, 3);
    assert_eq!(g.names, vec!["A".to_string(), "B".to_string(), "C".to_string()]);
    assert_eq!(
        g.edges,
        vec![
            Edge::new(0, 1),
            Edge::new(1, 0),
            Edge::new(0, 2),
            Edge::new(2, 0),
            Edge::new(2, 0),
            Edge::new(0, 2),
        ]
    );
}

#[test]
fn build_graph_link_to_a_record_without_links_still_adds_the_target() {
    let g = build_graph(&vec![record("A", &["B"]), record("B", &[])]);
    assert_eq!(g.n, 2);
    assert_eq!(g.edges.len(), 2);
}

#[test]
fn build_graph_self_link_gives_a_loop_twice() {
    let g = build_graph(&vec![record("A", &["A"])]);
    assert_eq!(g.n, 1);
    assert_eq!(g.edges, vec![Edge::new(0, 0), Edge::new(0, 0)]);
}

#[test]
fn add_vertex_finds_every_name_among_many() {
    let mut g = Graph::new();
    for i in 0..2000usize {
        assert_eq!(g.add_vertex(&format!("vertex-{}", i)), i);
    }
    for i in (0..2000usize).rev() {
        assert_eq!(g.add_vertex(&format!("vertex-{}", i)), i);
    }
    assert_eq!(g.n, 2000);
    assert_eq!(g.names.len(), 2000);
    assert_eq!(g.add_vertex(""), 2000);
    assert_eq!(g.add_vertex(""), 2000);
    assert_eq!(g.n, 2001);
}

#[test]
fn build_graph_edges_come_in_reciprocal_pairs() {
    let data = vec![
        record("A", &["B", "C", "A"]),
        record("B", &[]),
        record("C", &["D", "B"]),
        record("E", &["A"]),
    ];
    let g = build_graph(&data);
    assert_eq!(g.n, 5);
    assert_eq!(g.edges.len(), 12);
    for pair in g.edges.chunks(2) {
        assert_eq!(pair[1], Edge::new(pair[0].trg, pair[0].src));
    }
    assert_eq!(g.edges[8], Edge::new(2, 1));
    assert_eq!(g.edges[10], Edge::new(4, 0));
}
