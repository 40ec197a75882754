use graph_topology::random::{BuildError, RandomGraph};
use graph_topology::util::Lcg;
use std::collections::HashSet;

#[test]
fn test_random_layout() {
    let layout = RandomGraph::new(5);
    let edges = layout.build_edges();
    println!("{:?}", edges);
}

#[test]
fn test_contains_cycle() {
    assert!(RandomGraph::contains_cycle(&[
        (0, 1),
        (0, 5),
        (0, 2),
        (2, 5),
        (5, 0)
    ]));
}

#[test]
fn cycle_check_is_silent_on_chains_and_stars() {
    assert!(!RandomGraph::contains_cycle(&[]));
    assert!(!RandomGraph::contains_cycle(&[(0, 1)]));
    assert!(!RandomGraph::contains_cycle(&[(0, 1), (1, 2), (2, 3)]));
    assert!(!RandomGraph::contains_cycle(&[(0, 1), (0, 2), (0, 3)]));
    assert!(!RandomGraph::contains_cycle(&[(0, 1), (2, 3), (1, 2)]));
}

#[test]
fn cycle_check_reports_loops_and_cycles() {
    assert!(RandomGraph::contains_cycle(&[(3, 3)]));
    assert!(RandomGraph::contains_cycle(&[(0, 1), (1, 0)]));
    assert!(RandomGraph::contains_cycle(&[(0, 1), (1, 2), (2, 0)]));
    assert!(RandomGraph::contains_cycle(&[(4, 5), (0, 1), (1, 2), (2, 1)]));
}

#[test]
fn cycle_check_goes_by_edges_in_list_order() {
    // No cycle, but the walk from the first entry has left (1, 2) before the
    // walk from the second reaches it.
    assert!(RandomGraph::contains_cycle(&[(1, 2), (0, 1)]));
    assert!(!RandomGraph::contains_cycle(&[(0, 1), (1, 2)]));
    // Two ways into one edge.
    assert!(RandomGraph::contains_cycle(&[(0, 1), (0, 2), (1, 3), (2, 3), (3, 4)]));
    // An entry that occurs twice is reached twice, which shows once it leads on.
    assert!(!RandomGraph::contains_cycle(&[(0, 1), (1, 2), (1, 2)]));
    assert!(RandomGraph::contains_cycle(&[(0, 1), (1, 2), (1, 2), (2, 3)]));
}

fn assert_grown(edges: &[(u32, u32)], n: u32) {
    assert_eq!(edges.len(), n as usize);
    assert_eq!(edges[0], (0, 1));
    let set: HashSet<(u32, u32)> = edges.iter().copied().collect();
    assert_eq!(set.len(), edges.len());
    for (k, edge) in edges.iter().enumerate() {
        assert!(edge.0 <= n && edge.1 <= n);
        assert_ne!(edge.0, edge.1);
        if k > 0 {
            assert!(edges[..k].iter().any(|e| e.0 == edge.0 || e.1 == edge.0));
        }
    }
    assert!(!RandomGraph::contains_cycle(edges));
}

#[test]
fn random_graph_has_the_edges_asked_for() {
    for n in [1u32, 2, 3, 5, 8, 13, 40, 100] {
        let edges = RandomGraph::new(n).build_edges().unwrap();
        assert_grown(&edges, n);
    }
}

#[test]
fn random_graph_for_any_seed() {
    for seed in 0..50u64 {
        let mut rng = Lcg::from_seed(seed);
        let edges = RandomGraph::new(12).build_edges_with(&mut rng, 1000).unwrap();
        assert_grown(&edges, 12);
    }
}

#[test]
fn random_graph_of_one_edge() {
    assert_eq!(RandomGraph::new(1).build_edges(), Ok(vec![(0, 1)]));
}

#[test]
fn random_graph_without_edges_is_refused() {
    assert_eq!(RandomGraph::new(0).build_edges(), Err(BuildError::NoEdges));
    let mut rng = Lcg::from_seed(3);
    assert_eq!(RandomGraph::new(0).build_edges_with(&mut rng, 10), Err(BuildError::NoEdges));
    assert_eq!(BuildError::NoEdges.message(), "the number of edges must be at least one");
}

#[test]
fn random_graph_follows_from_the_seed() {
    assert_eq!(
        RandomGraph::new(5).build_edges(),
        Ok(vec![(0, 1), (0, 5), (1, 4), (1, 3), (1, 2)])
    );
    assert_eq!(RandomGraph::new(5).build_edges(), RandomGraph::new(5).build_edges());
    let mut rng = Lcg::from_seed(42);
    assert_eq!(
        RandomGraph::new(8).build_edges_with(&mut rng, u64::MAX),
        Ok(vec![(0, 1), (1, 6), (1, 7), (7, 2), (0, 3), (3, 4), (7, 8), (2, 8)])
    );
}

#[test]
fn random_graph_without_draws_is_a_star() {
    let mut rng = Lcg::from_seed(42);
    assert_eq!(
        RandomGraph::new(4).build_edges_with(&mut rng, 0),
        Ok(vec![(0, 1), (0, 2), (0, 3), (0, 4)])
    );
    // Nothing was drawn.
    assert_eq!(rng.generate_range(100), Lcg::from_seed(42).generate_range(100));
}

#[test]
fn random_graph_with_one_draw_per_edge() {
    let mut rng = Lcg::from_seed(1);
    let edges = RandomGraph::new(6).build_edges_with(&mut rng, 1).unwrap();
    assert_eq!(edges, vec![(0, 1), (1, 3), (1, 2), (0, 4), (0, 5), (0, 2)]);
    assert_grown(&edges, 6);
}

#[test]
fn generator_draws_below_the_bound() {
    let mut rng = Lcg::new();
    assert_eq!(rng.generate_range(10), 1);
    assert_eq!(rng.generate_range(2), 0);
    assert_eq!(rng.generate_range(6), 5);
    assert_eq!(rng.generate_range(1), 0);
    assert_eq!(rng.generate_range(1000), 673);
    let mut seeded = Lcg::from_seed(7);
    assert_eq!(seeded.generate_range(100), 56);
    for bound in 1..200u64 {
        assert!(seeded.generate_range(bound) < bound);
    }
}

#[test]
fn offered_edges_are_kept_or_refused() {
    let mut edges = vec![(0, 1)];
    assert!(RandomGraph::try_edge(&mut edges, (1, 2)));
    assert!(!RandomGraph::try_edge(&mut edges, (1, 2)));
    assert!(!RandomGraph::try_edge(&mut edges, (2, 2)));
    assert!(!RandomGraph::try_edge(&mut edges, (2, 0)));
    assert!(RandomGraph::try_edge(&mut edges, (0, 3)));
    // Sound but refused: (3, 1) would lead into an edge that was left before.
    assert!(!RandomGraph::try_edge(&mut edges, (3, 1)));
    assert_eq!(edges, vec![(0, 1), (1, 2), (0, 3)]);
}
