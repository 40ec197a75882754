use graph_topology::comm::{comp_graph, CubeGraph};
use graph_topology::render::edge_lines;

#[test]
fn edge_lines_of_nothing() {
    assert!(edge_lines(&[]).is_empty());
}

#[test]
fn edge_lines_write_one_line_per_edge() {
    let text = edge_lines(&[(0, 1), (10, 9), (4294967295, 100), (7, 0)]);
    assert_eq!(
        String::from_utf8(text).unwrap(),
        "0 -> 1\n10 -> 9\n4294967295 -> 100\n7 -> 0\n"
    );
}

#[test]
fn edge_lines_agree_with_formatting() {
    let edges = comp_graph(10, 5, 10);
    let expected = edges
        .iter()
        .map(|(tail, head)| format!("{} -> {}\n", tail, head))
        .collect::<String>();
    assert_eq!(String::from_utf8(edge_lines(&edges)).unwrap(), expected);
}

#[test]
fn cube_graph_3_dim_2_ts() {
    let layout = CubeGraph::new(3, 3, 3, 2)
        .build()
        .into_iter()
        .map(|(t, h)| (t as u32, h as u32))
        .collect::<Vec<_>>();
    let text = edge_lines(&layout);
    assert_eq!(text.iter().filter(|byte| **byte == b'\n').count(), layout.len());
    assert!(text.starts_with(b"0 -> 27\n0 -> 28\n"));
}

#[test]
fn cube_graph_6_dim_3_ts() {
    let layout = CubeGraph::new(6, 6, 6, 3)
        .build()
        .into_iter()
        .map(|(t, h)| (t as u32, h as u32))
        .collect::<Vec<_>>();
    let text = edge_lines(&layout);
    assert_eq!(text.iter().filter(|byte| **byte == b'\n').count(), layout.len());
}

#[test]
fn cube_graph_8_dim_3_ts() {
    let layout = CubeGraph::new(8, 8, 8, 3)
        .build()
        .into_iter()
        .map(|(t, h)| (t as u32, h as u32))
        .collect::<Vec<_>>();

    let text = edge_lines(&layout);
    assert_eq!(text.iter().filter(|byte| **byte == b'\n').count(), layout.len());
}
