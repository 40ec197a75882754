use graph_topology::comm::{comp_graph, create_layers};
use std::collections::HashSet;

#[test]
fn test_create_layers() {
    let actual = create_layers(7, 3);
    let expected = vec![
        vec![0, 1, 2, 3, 4, 5, 6],
        vec![7, 8, 9, 10, 11, 12, 13],
        vec![14, 15, 16, 17, 18, 19, 20],
    ];

    assert_eq!(actual, expected);
}

#[test]
fn test_create_comp_graph_empty() {
    assert!(comp_graph(123, 123, 1).is_empty());
    assert!(comp_graph(123, 123, 0).is_empty());
    assert!(comp_graph(0, 0, 1999).is_empty());
}

#[test]
fn test_create_comp_graph_no_outside() {
    let actual = comp_graph(3, 0, 2);
    let expected = vec![(0, 3), (0, 4), (1, 3), (1, 4), (1, 5), (2, 4), (2, 5)];
    assert_eq!(actual, expected);
}

#[test]
fn test_create_comp_graph_no_inside() {
    let actual = comp_graph(0, 3, 2).into_iter().collect::<HashSet<_>>();
    let expected = HashSet::from([
        (0, 3),
        (0, 4),
        (1, 3),
        (1, 4),
        (1, 5),
        (2, 4),
        (2, 5),
        (0, 6),
        (1, 6),
        (2, 6),
        (6, 3),
        (6, 4),
        (6, 5),
    ]);
    assert_eq!(actual, expected);
}

#[test]
fn test_create_comp_graph() {
    let actual = comp_graph(3, 1, 2).into_iter().collect::<HashSet<_>>();
    let expected = HashSet::from([
        (0, 4),
        (0, 5),
        (1, 4),
        (1, 5),
        (1, 6),
        (2, 5),
        (2, 6),
        (2, 7),
        (3, 6),
        (3, 7),
        (3, 8),
        (8, 7),
    ]);
    assert_eq!(actual, expected);
}

#[test]
fn test_create_comp_graph_larg() {
    let edges = comp_graph(10, 5, 10)
        .into_iter()
        .map(|(t, h)| (t as u32, h as u32))
        .collect::<Vec<(u32, u32)>>();
    println!("{:?}", edges);
}

#[test]
fn create_layers_without_layers_or_nodes() {
    assert_eq!(create_layers(5, 0), Vec::<Vec<u32>>::new());
    assert_eq!(create_layers(0, 2), vec![Vec::<u32>::new(), Vec::<u32>::new()]);
}

#[test]
fn comp_graph_keeps_the_order_of_positions_and_hubs() {
    let actual = comp_graph(1, 1, 3);
    let expected = vec![
        (0, 2),
        (0, 3),
        (1, 2),
        (1, 3),
        (2, 4),
        (2, 5),
        (3, 4),
        (3, 5),
        (1, 6),
        (6, 3),
        (3, 7),
        (7, 5),
    ];
    assert_eq!(actual, expected);
}

#[test]
fn comp_graph_of_single_positions() {
    assert_eq!(comp_graph(1, 0, 3), vec![(0, 1), (1, 2)]);
    assert_eq!(comp_graph(0, 1, 2), vec![(0, 1), (0, 2), (2, 1)]);
}

#[test]
fn comp_graph_counts_its_edges() {
    // Per boundary: three links per position but for the two at the rim,
    // and two hub links per outer position.
    let edges = comp_graph(10, 5, 10);
    assert_eq!(edges.len(), 9 * (3 * 15 - 2) + 9 * 2 * 5);
    let hubs: HashSet<u32> = edges.iter().map(|e| e.1).filter(|v| *v >= 150).collect();
    assert_eq!(hubs, (150..159).collect::<HashSet<u32>>());
}

#[test]
fn comp_graph_hubs_lie_beyond_the_layers() {
    let edges = comp_graph(2, 2, 4);
    for (tail, head) in edges {
        assert!(tail < 16 + 3 && head < 16 + 3);
        assert!(!(tail >= 16 && head >= 16));
    }
}

#[test]
fn comp_graph_is_repeatable() {
    assert_eq!(comp_graph(4, 3, 6), comp_graph(4, 3, 6));
}
