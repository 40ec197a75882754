use graph_topology::comm::{CubeGraph, CubeGraphOld};
use std::collections::HashSet;

#[test]
fn cube_graph_vec() {
    let graph = CubeGraph::new(3, 3, 3, 2);
    for ts in graph.cubes() {
        for x in ts {
            for y in x {
                println!("{y:?}");
            }
            println!("");
        }
        println!("");
    }
}

#[test]
fn cube_graph_neighbors() {
    let graph = CubeGraph::new(3, 3, 3, 2);
    println!("{:?}", graph.get_neighbors(0, 0, 0, 0));
    println!("{:?}", graph.get_neighbors(1, 1, 1, 0));
}

#[test]
fn cube_graph_is_outer() {
    let graph = CubeGraph::new(4, 4, 4, 1);
    assert!(graph.is_outer_vertex(0, 1, 2));
    assert!(!graph.is_outer_vertex(1, 1, 1));
}

#[test]
fn cube_graph_build() {
    let edges = CubeGraph::new(3, 3, 3, 2).build();
    println!("{edges:?}");
}

#[test]
fn test_neighbor_indices() {
    let g = CubeGraphOld::new(3, 3, 3, 3);
    let neighbors = g.get_neighbor_indices(13);
    println!("{neighbors:?}");
}

#[test]
fn cube_table_numbers_cells_depth_first_then_width_then_height() {
    let graph = CubeGraph::new(3, 4, 5, 2);
    let table = graph.cubes();
    assert_eq!(table.len(), 2);
    assert_eq!(table[0].len(), 3);
    assert_eq!(table[0][0].len(), 4);
    assert_eq!(table[0][0][0].len(), 5);
    assert_eq!(table[0][0][0][0], 0);
    assert_eq!(table[0][0][0][4], 4);
    assert_eq!(table[0][1][0][0], 5);
    assert_eq!(table[0][0][1][0], 15);
    assert_eq!(table[0][2][3][4], 59);
    assert_eq!(table[1][0][0][0], 60);
    assert_eq!(table[1][2][1][3], 60 + 15 + 10 + 3);
}

#[test]
fn cube_neighbors_of_corner_and_centre() {
    let graph = CubeGraph::new(3, 3, 3, 2);
    assert_eq!(graph.get_neighbors(0, 0, 0, 0), vec![27, 28, 30, 31, 36, 37, 39, 40]);
    let centre = graph.get_neighbors(1, 1, 1, 0);
    assert_eq!(centre, (27..54).collect::<Vec<u32>>());
    // No copy follows the last timestep.
    assert!(graph.get_neighbors(1, 1, 1, 1).is_empty());
    assert!(graph.get_neighbors(1, 1, 1, 7).is_empty());
    // A position outside the grid still has the cells of the grid beside it.
    assert_eq!(graph.get_neighbors(3, 0, 0, 0), vec![27 + 6, 27 + 7, 27 + 15, 27 + 16]);
    assert!(graph.get_neighbors(4, 0, 0, 0).is_empty());
}

#[test]
fn cube_neighbor_indices_clip_at_the_faces() {
    let g = CubeGraphOld::new(3, 3, 3, 3);
    assert_eq!(g.get_neighbor_indices(13), (0..27).collect::<Vec<u32>>());
    assert_eq!(g.get_neighbor_indices(0), vec![0, 1, 3, 4, 9, 10, 12, 13]);
    assert_eq!(g.get_neighbor_indices(26), vec![13, 14, 16, 17, 22, 23, 25, 26]);
    // Cell 2 ends a row: the next number starts another row and is no neighbour.
    assert_eq!(g.get_neighbor_indices(2), vec![1, 2, 4, 5, 10, 11, 13, 14]);
    assert!(g.get_neighbor_indices(27).is_empty());
    let flat = CubeGraphOld::new(3, 3, 2, 3);
    assert!(flat.get_neighbor_indices(0).is_empty());
    let none = CubeGraphOld::new(3, 3, 3, 0);
    assert!(none.get_neighbor_indices(0).is_empty());
}

#[test]
fn cube_undersized_builds_nothing() {
    for timesteps in [0usize, 1, 2, 5, 1000] {
        assert!(CubeGraph::new(2, 3, 3, timesteps).build().is_empty());
        assert!(CubeGraph::new(3, 2, 3, timesteps).build().is_empty());
        assert!(CubeGraph::new(3, 3, 2, timesteps).build().is_empty());
        assert!(CubeGraph::new(0, 0, 0, timesteps).build().is_empty());
        assert!(CubeGraphOld::new(2, 3, 3, timesteps).build().is_empty());
        assert!(CubeGraphOld::new(3, 2, 3, timesteps).build().is_empty());
        assert!(CubeGraphOld::new(3, 3, 2, timesteps).build().is_empty());
        assert!(CubeGraphOld::new(1, 9, 9, timesteps).build().is_empty());
    }
    assert!(CubeGraph::new(2, usize::MAX, usize::MAX, usize::MAX).build().is_empty());
    assert!(CubeGraphOld::new(usize::MAX, usize::MAX, 2, usize::MAX).build().is_empty());
}

#[test]
fn cube_without_a_second_timestep_builds_nothing() {
    assert!(CubeGraph::new(3, 3, 3, 0).build().is_empty());
    assert!(CubeGraph::new(3, 3, 3, 1).build().is_empty());
    assert!(CubeGraphOld::new(4, 5, 6, 0).build().is_empty());
    assert!(CubeGraphOld::new(4, 5, 6, 1).build().is_empty());
}

#[test]
fn cube_of_three_has_the_expected_edges() {
    let edges = CubeGraph::new(3, 3, 3, 2).build();
    // 8 corners with 8 cells around them, 12 edge cells with 12, 6 face
    // centres with 18, the centre with 27; and two hub links for each of the
    // 26 cells on a face.
    assert_eq!(edges.len(), 8 * 8 + 12 * 12 + 6 * 18 + 27 + 2 * 26);
    assert_eq!(edges[0], (0, 27));
    assert_eq!(&edges[..10], &[
        (0, 27),
        (0, 28),
        (0, 30),
        (0, 31),
        (0, 36),
        (0, 37),
        (0, 39),
        (0, 40),
        (0, 54),
        (54, 27),
    ]);
    let set: HashSet<(u32, u32)> = edges.iter().copied().collect();
    assert_eq!(set.len(), edges.len());
    for cell in 0..27u32 {
        assert!(set.contains(&(cell, cell + 27)));
        assert_eq!(set.contains(&(cell, 54)), cell != 13);
        assert_eq!(set.contains(&(54, cell + 27)), cell != 13);
    }
}

#[test]
fn cube_edges_lead_to_the_next_timestep() {
    let (w, h, d, t) = (3usize, 4usize, 5usize, 4usize);
    let cells = (w * h * d) as u32;
    let edges = CubeGraphOld::new(w, h, d, t).build();
    assert!(!edges.is_empty());
    for (tail, head) in edges {
        let first_hub = cells * t as u32;
        if tail >= first_hub {
            let step = tail - first_hub;
            assert!(step + 1 < t as u32);
            assert_eq!(head / cells, step + 1);
        } else if head >= first_hub {
            let step = head - first_hub;
            assert!(step + 1 < t as u32);
            assert_eq!(tail / cells, step);
        } else {
            assert_eq!(head / cells, tail / cells + 1);
            assert!(head / cells < t as u32);
        }
    }
}

#[test]
fn cube_hub_links_come_in_pairs_for_outer_cells_only() {
    let (w, h, d, t) = (4usize, 3usize, 5usize, 3usize);
    let cells = (w * h * d) as u32;
    let graph = CubeGraph::new(w, h, d, t);
    let edges = graph.build();
    for step in 0..(t as u32 - 1) {
        let hub = cells * t as u32 + step;
        for y in 0..h {
            for x in 0..w {
                for z in 0..d {
                    let cell = (y * w * d + x * d + z) as u32;
                    let into = edges.iter().filter(|e| **e == (step * cells + cell, hub)).count();
                    let out =
                        edges.iter().filter(|e| **e == (hub, (step + 1) * cells + cell)).count();
                    let touching = edges
                        .iter()
                        .filter(|e| {
                            (e.0 == step * cells + cell && e.1 >= cells * t as u32)
                                || (e.0 >= cells * t as u32 && e.1 == (step + 1) * cells + cell)
                        })
                        .count();
                    if graph.is_outer_vertex(x, y, z) {
                        assert_eq!((into, out, touching), (1, 1, 2));
                    } else {
                        assert_eq!((into, out, touching), (0, 0, 0));
                    }
                }
            }
        }
    }
}

#[test]
fn cube_outer_cells_are_those_on_a_face() {
    let graph = CubeGraph::new(4, 5, 6, 1);
    assert!(graph.is_outer_vertex(3, 2, 2));
    assert!(graph.is_outer_vertex(2, 4, 2));
    assert!(graph.is_outer_vertex(2, 2, 5));
    assert!(graph.is_outer_vertex(2, 0, 2));
    assert!(graph.is_outer_vertex(2, 2, 0));
    assert!(!graph.is_outer_vertex(2, 3, 4));
    assert!(!graph.is_outer_vertex(4, 5, 6));
    let empty = CubeGraph::new(0, 0, 0, 1);
    assert!(empty.is_outer_vertex(0, 7, 7));
    assert!(!empty.is_outer_vertex(7, 7, 7));
}

#[test]
fn cube_builders_agree_and_repeat() {
    for (w, h, d, t) in [(3usize, 3usize, 3usize, 2usize), (3, 4, 5, 3), (5, 3, 4, 4), (6, 6, 6, 3)] {
        let table = CubeGraph::new(w, h, d, t);
        let flat = CubeGraphOld::new(w, h, d, t);
        let edges = table.build();
        assert_eq!(edges, flat.build());
        assert_eq!(edges, table.build());
        assert_eq!(edges, CubeGraph::new(w, h, d, t).build());
        let set: HashSet<(u32, u32)> = edges.iter().copied().collect();
        assert_eq!(set.len(), edges.len());
    }
}

#[test]
fn cube_hub_ids_follow_all_cells() {
    let edges = CubeGraphOld::new(3, 3, 3, 4).build();
    let hubs: HashSet<u32> = edges.iter().map(|e| e.1).filter(|v| *v >= 108).collect();
    assert_eq!(hubs, HashSet::from([108, 109, 110]));
    assert!(edges.contains(&(27, 109)));
    assert!(edges.contains(&(109, 54)));
}
