use std::collections::HashMap;
use trellis::crossings::{
    count_all_crossings, count_crossings, min_crossings_core, min_crossings_down, min_crossings_up,
    sort_pairs,
};
use trellis::disjoint::find_disjoint_subgraphs;
use trellis::error::Error;
use trellis::find_chains::find_chains;
use trellis::graph::Graph;
use trellis::layering::create_layer_map;
use trellis::proper::{
    build_proper_graph, create_proper_graph, fits_proper_graph, try_create_proper_graph,
    NO_POSITION,
};
use trellis::ramp_table::RampTable;
use trellis::topo_sort::topo_sort_reverse;

fn graph_from_paths(paths: &[&[u32]]) -> Graph {
    let mut edges: HashMap<u32, Vec<u32>> = HashMap::new();
    for &path in paths.iter() {
        for w in path.windows(2) {
            edges.entry(w[0]).or_default().push(w[1]);
        }
    }
    let mut sorted = edges.iter().collect::<Vec<(&u32, &Vec<u32>)>>();
    sorted.sort_by_key(|e| e.0);
    let mut graph = Graph::new();
    for (&from, to_list) in sorted.iter() {
        while graph.num_verts() < from as usize {
            graph.finish_from();
        }
        for &to in to_list.iter() {
            graph.push_to(to);
        }
        graph.finish_from();
    }
    let num_verts = edges
        .iter()
        .map(|(&from, to_list)| (from + 1).max(to_list.iter().map(|&v| v + 1).max().unwrap_or(0)))
        .max()
        .unwrap_or(0);
    while graph.num_verts() < num_verts as usize {
        graph.finish_from();
    }
    assert!(trellis::graph::assert_graph_is_well_formed(&graph));
    graph
}

#[test]
fn find_disjoint_subgraphs_test() {
    fn case(description: &str, graph: &Graph) {
        println!("testing: {}", description);
        find_disjoint_subgraphs(graph);
    }

    case("empty", &graph_from_paths(&[]));

    case("simple acyclic", &graph_from_paths(&[&[1, 2, 3, 4, 5]]));

    case("backward", &graph_from_paths(&[&[5, 4, 3, 2, 1]]));

    case("two", &graph_from_paths(&[&[1, 2, 3, 4, 5], &[10, 11, 12, 13, 14]]));
}

#[test]
fn create_proper_graph_test() {
    fn case(description: &str, graph: &Graph) {
        let layer_map = create_proper_graph(graph);
        println!(
            "--- {}\ngraph: {:#?}\nlayer_map: {:#?}\n",
            description, graph, layer_map
        );
    }

    case(
        "simple tree",
        &graph_from_paths(&[
            &[1, 10, 11, 12, 13, 14],
            &[1, 20, 21, 22, 23, 24],
            &[1, 14],
            &[1, 24],
            &[10, 23],
        ]),
    );
}

#[test]
fn two_paths_are_two_subgraphs() {
    let graph = graph_from_paths(&[&[1, 2, 3, 4, 5], &[10, 11, 12, 13, 14]]);
    let found = find_disjoint_subgraphs(&graph);
    assert_eq!(found.subgraphs.num_keys(), 2);
    assert_eq!(found.subgraphs.entry_values(0), &[1, 2, 3, 4, 5]);
    assert_eq!(found.subgraphs.entry_values(1), &[10, 11, 12, 13, 14]);
}

#[test]
fn subgraphs_that_meet_late_are_one() {
    // Three provisional subgraphs start at 0 -> 1, 2 -> 3 and 4 -> 5; the
    // edges from 6 then join the third to the second and to the first.
    let graph = graph_from_paths(&[&[0, 1], &[2, 3], &[4, 5], &[6, 5], &[6, 3], &[6, 1], &[8, 9]]);
    let found = find_disjoint_subgraphs(&graph);
    assert_eq!(found.subgraphs.num_keys(), 2);
    assert_eq!(found.subgraphs.entry_values(0), &[0, 1, 2, 3, 4, 5, 6]);
    assert_eq!(found.subgraphs.entry_values(1), &[8, 9]);
    // Vertex 7 has no edges and belongs to no subgraph.
    assert!(!found.subgraphs.all_values().contains(&7));
}

#[test]
fn subgraphs_partition_the_touched_vertices() {
    let graph = graph_from_paths(&[&[5, 4, 3], &[9, 7], &[2, 2], &[7, 8, 9]]);
    let found = find_disjoint_subgraphs(&graph);
    let mut all = found.subgraphs.all_values().to_vec();
    all.sort();
    assert_eq!(all, vec![2, 3, 4, 5, 7, 8, 9]);
    assert_eq!(found.subgraphs.num_keys(), 3);
    assert_eq!(found.subgraphs.entry_values(0), &[2]);
    assert_eq!(found.subgraphs.entry_values(1), &[3, 4, 5]);
    assert_eq!(found.subgraphs.entry_values(2), &[7, 8, 9]);
    let empty = find_disjoint_subgraphs(&Graph::new());
    assert_eq!(empty.subgraphs.num_keys(), 0);
}

#[test]
fn long_edge_gets_virtual_vertices() {
    let graph = graph_from_paths(&[
        &[1, 10, 11, 12, 13, 14],
        &[1, 20, 21, 22, 23, 24],
        &[1, 14],
        &[1, 24],
        &[10, 23],
    ]);
    let layers = create_layer_map(&graph).unwrap();
    assert_eq!(layers.v_layer[14], 0);
    assert_eq!(layers.v_layer[24], 0);
    assert_eq!(layers.v_layer[10], 4);
    assert_eq!(layers.v_layer[23], 1);
    // The longest path from 1 has five edges.
    assert_eq!(layers.v_layer[1], 5);
    assert_eq!(layers.num_layers, 6);
    assert!(fits_proper_graph(&graph, &layers));

    let order = topo_sort_reverse(&graph).unwrap();
    let proper = build_proper_graph(&graph, &layers, &order);
    // 1 -> 14 and 1 -> 24 span five layers and take four virtual vertices
    // each; 10 -> 23 spans three and takes two.
    assert_eq!(proper.v_pos.len(), 25 + 10);
    assert_eq!(proper.layer_verts.num_keys(), 6);
    assert_eq!(proper.layer_edges.num_keys(), 5);
    assert_eq!(proper.layer_verts.num_values(), 11 + 10);
    assert_eq!(proper.layer_edges.num_values(), 13 + 10);

    // The edges of the graph in order: 1 -> 10, 20, 14, 24; 10 -> 11, 23; ...
    // The chain of 1 -> 14 takes the virtual vertices 25..=28, that of
    // 1 -> 24 takes 29..=32, that of 10 -> 23 takes 33 and 34.
    assert!(proper.layer_edges.entry_values(4).contains(&(1, 25)));
    assert!(proper.layer_edges.entry_values(3).contains(&(25, 26)));
    assert!(proper.layer_edges.entry_values(2).contains(&(26, 27)));
    assert!(proper.layer_edges.entry_values(1).contains(&(27, 28)));
    assert!(proper.layer_edges.entry_values(0).contains(&(28, 14)));
    assert!(proper.layer_edges.entry_values(4).contains(&(1, 29)));
    assert!(proper.layer_edges.entry_values(0).contains(&(32, 24)));
    assert!(proper.layer_edges.entry_values(3).contains(&(10, 33)));
    assert!(proper.layer_edges.entry_values(2).contains(&(33, 34)));
    assert!(proper.layer_edges.entry_values(1).contains(&(34, 23)));
    assert_eq!(
        proper.layer_edges.entry_values(4),
        &[(1, 10), (1, 20), (1, 25), (1, 29)]
    );
    assert_eq!(proper.layer_verts.entry_values(5), &[1]);

    // Every vertex that the tables name is a vertex of the proper graph.
    let count = proper.v_pos.len() as u32;
    assert!(proper.layer_verts.all_values().iter().all(|&v| v < count));
    assert!(proper
        .layer_edges
        .all_values()
        .iter()
        .all(|&(from, to)| from < count && to < count));
    // Every link joins two neighbouring layers.
    for (l, links) in proper.layer_edges.iter().iter().enumerate() {
        for &(from, to) in links.iter() {
            assert!(proper.layer_verts.entry_values(l + 1).contains(&from));
            assert!(proper.layer_verts.entry_values(l).contains(&to));
        }
    }
    // Every vertex on a layer has its place in the list as its position.
    for verts in proper.layer_verts.iter() {
        for (x, &v) in verts.iter().enumerate() {
            assert_eq!(proper.v_pos[v as usize], x as u32);
        }
    }
    assert_eq!(proper.v_pos[0], NO_POSITION);
    assert_eq!(proper.v_pos[2], NO_POSITION);
}

#[test]
fn proper_graph_of_short_edges_has_no_virtual_vertices() {
    let graph = graph_from_paths(&[&[0, 1, 2], &[3, 1]]);
    let proper = create_proper_graph(&graph).unwrap();
    assert_eq!(proper.v_pos.len(), 4);
    assert_eq!(proper.layer_edges.entry_values(1), &[(0, 1), (3, 1)]);
    assert_eq!(proper.layer_edges.entry_values(0), &[(1, 2)]);
    assert_eq!(proper.layer_verts.entry_values(0), &[2]);
    assert_eq!(proper.layer_verts.entry_values(1), &[1]);
    let mut top = proper.layer_verts.entry_values(2).to_vec();
    top.sort();
    assert_eq!(top, vec![0, 3]);
    // 0 and 3 both hang on vertex 1; the lower number comes first.
    assert_eq!(proper.v_pos, vec![0, 0, 0, 1]);
    assert_eq!(try_create_proper_graph(&graph), Ok(Some(proper)));
}

#[test]
fn proper_graph_of_a_cycle_fails() {
    let graph = graph_from_paths(&[&[0, 1, 2, 0]]);
    assert_eq!(create_proper_graph(&graph), Err(Error::FoundCycle));
    assert_eq!(try_create_proper_graph(&graph), Err(Error::FoundCycle));
}

#[test]
fn proper_graph_without_edges_is_empty() {
    let mut graph = Graph::new();
    graph.finish_from();
    graph.finish_from();
    let proper = create_proper_graph(&graph).unwrap();
    assert_eq!(proper.layer_verts.num_keys(), 0);
    assert_eq!(proper.layer_edges.num_keys(), 0);
    assert_eq!(proper.v_pos, vec![NO_POSITION, NO_POSITION]);
}

#[test]
fn core_orders_by_barycenter() {
    // Stable vertices 0, 1, 2 at positions 0, 1, 2; moving vertices 3, 4, 5.
    let mut v_pos: Vec<u32> = vec![0, 1, 2, 0, 1, 2, 9];
    // 3 hangs on 2 (barycenter 2000); 4 on 0 and 1 (500); 5 on 0, 1, 1 (667).
    let edges: Vec<(u32, u32)> = vec![(2, 3), (0, 4), (1, 4), (0, 5), (1, 5), (1, 5)];
    min_crossings_core(&mut v_pos, &edges);
    assert_eq!(v_pos, vec![0, 1, 2, 2, 0, 1, 9]);
}

#[test]
fn core_breaks_ties_by_vertex_number() {
    let mut v_pos: Vec<u32> = vec![4, 7, 7, 7];
    let edges: Vec<(u32, u32)> = vec![(0, 3), (0, 1), (0, 2)];
    min_crossings_core(&mut v_pos, &edges);
    assert_eq!(v_pos, vec![4, 0, 1, 2]);
    // Without edges nothing moves.
    min_crossings_core(&mut v_pos, &vec![]);
    assert_eq!(v_pos, vec![4, 0, 1, 2]);
}

#[test]
fn core_rounds_the_barycenter() {
    // Vertices 3 and 5 have the mean 2 / 3, which rounds to 667, and vertex
    // 4 has the mean 1 / 2, which gives 500: 4 comes first, then 3, then 5.
    let mut v_pos: Vec<u32> = vec![0, 1, 1, 0, 0, 0];
    let edges: Vec<(u32, u32)> = vec![(0, 3), (1, 3), (2, 3), (0, 4), (1, 4), (0, 5), (1, 5), (2, 5)];
    min_crossings_core(&mut v_pos, &edges);
    assert_eq!(v_pos, vec![0, 1, 1, 1, 0, 2]);
}

#[test]
fn pairs_are_sorted() {
    let items: Vec<(u64, u32)> = vec![(5, 1), (3, 9), (5, 0), (0, 7), (3, 2)];
    let (sorted, _) = sort_pairs(&items);
    assert_eq!(sorted, vec![(0, 7), (3, 2), (3, 9), (5, 0), (5, 1)]);
}

fn two_layer_table() -> RampTable<(u32, u32)> {
    // Layer 0 holds 0 and 1, layer 1 holds 2 and 3, layer 2 holds 4.
    let mut table: RampTable<(u32, u32)> = RampTable::new();
    table.push_value((2, 1));
    table.push_value((3, 0));
    table.finish_key();
    table.push_value((4, 2));
    table.push_value((4, 3));
    table.finish_key();
    table
}

#[test]
fn crossings_are_counted() {
    // 2 hangs on 1 and 3 on 0, but 2 stands left of 3 and 0 left of 1.
    let v_pos: Vec<u32> = vec![0, 1, 0, 1, 0];
    let table = two_layer_table();
    assert_eq!(count_crossings(&v_pos, table.entry_values(0)), 1);
    assert_eq!(count_crossings(&v_pos, table.entry_values(1)), 0);
    assert_eq!(count_all_crossings(&v_pos, &table), 1);
    let v_pos: Vec<u32> = vec![1, 0, 0, 1, 0];
    assert_eq!(count_crossings(&v_pos, table.entry_values(0)), 0);
    assert_eq!(count_all_crossings(&v_pos, &table), 0);
    // Edges that share an end do not cross.
    assert_eq!(count_crossings(&v_pos, &[(0, 1), (0, 2), (3, 2)]), 0);
    assert_eq!(count_crossings(&v_pos, &[]), 0);
}

#[test]
fn sweeps_remove_a_crossing() {
    let table = two_layer_table();
    // 2 hangs on 1 and 3 on 0, but 2 stands left of 3 and 0 left of 1.
    let mut v_pos: Vec<u32> = vec![0, 1, 0, 1, 0];
    assert_eq!(count_all_crossings(&v_pos, &table), 1);
    min_crossings_up(&mut v_pos, &table);
    // The upper layer follows the lower one: 3 moves left of 2.
    assert_eq!(v_pos, vec![0, 1, 1, 0, 0]);
    assert_eq!(count_all_crossings(&v_pos, &table), 0);

    let mut v_pos: Vec<u32> = vec![0, 1, 0, 1, 0];
    min_crossings_down(&mut v_pos, &table);
    // The lower layer follows the upper one: 1 moves left of 0.
    assert_eq!(v_pos, vec![1, 0, 0, 1, 0]);
    assert_eq!(count_all_crossings(&v_pos, &table), 0);
}

#[test]
fn subgraphs_are_numbered_by_their_first_source() {
    // The edge 5 -> 0 starts a subgraph after the edge 1 -> 9 has started
    // one: the subgraph of 1 comes first although 0 is the lowest vertex.
    let graph = graph_from_paths(&[&[5, 0], &[1, 9], &[7, 8]]);
    let found = find_disjoint_subgraphs(&graph);
    assert_eq!(found.subgraphs.num_keys(), 3);
    assert_eq!(found.subgraphs.entry_values(0), &[1, 9]);
    assert_eq!(found.subgraphs.entry_values(1), &[0, 5]);
    assert_eq!(found.subgraphs.entry_values(2), &[7, 8]);
}

#[test]
fn find_chains_test() {
    fn case(description: &str, graph: &Graph) {
        println!("{} -----", description);
        find_chains(graph);
    }

    case("empty", &graph_from_paths(&[]));

    case("simple", &graph_from_paths(&[&[1, 2, 3, 4, 5]]));

    case(
        "double",
        &graph_from_paths(&[&[1, 2, 3, 4, 5], &[1, 10, 11, 12, 5]]),
    );
}

#[test]
fn chains_are_found() {
    let chains = find_chains(&graph_from_paths(&[]));
    assert_eq!(chains.num_keys(), 0);

    let chains = find_chains(&graph_from_paths(&[&[1, 2, 3, 4, 5]]));
    assert_eq!(chains.num_keys(), 1);
    assert_eq!(chains.entry_values(0), &[1, 2, 3, 4, 5]);

    let chains = find_chains(&graph_from_paths(&[&[1, 2, 3, 4, 5], &[1, 10, 11, 12, 5]]));
    assert_eq!(chains.num_keys(), 2);
    assert_eq!(chains.entry_values(0), &[1, 2, 3, 4, 5]);
    assert_eq!(chains.entry_values(1), &[1, 10, 11, 12, 5]);
}

#[test]
fn loops_and_rings_are_no_chains() {
    // 0 has a self-loop and an edge to 1; 1 -> 2 -> 3; the ring 4 -> 5 -> 4
    // hangs on nothing.
    let graph = graph_from_paths(&[&[0, 0], &[0, 1, 2, 3], &[4, 5, 4]]);
    let chains = find_chains(&graph);
    assert_eq!(chains.num_keys(), 1);
    assert_eq!(chains.entry_values(0), &[0, 1, 2, 3]);
}

#[test]
fn layout_is_the_same_every_time() {
    let graph = graph_from_paths(&[&[0, 1, 4], &[0, 2, 4], &[0, 3, 4], &[2, 5], &[0, 5]]);
    let first = create_proper_graph(&graph).unwrap();
    let second = create_proper_graph(&graph).unwrap();
    assert_eq!(first, second);
    assert_eq!(topo_sort_reverse(&graph), Ok(vec![4, 1, 5, 2, 3, 0]));
    // 0 -> 5 spans two layers and takes one virtual vertex.
    assert_eq!(first.v_pos.len(), 7);
    assert_eq!(first.layer_verts.entry_values(0), &[4, 5]);
    assert_eq!(first.layer_verts.entry_values(1), &[1, 2, 3, 6]);
    assert_eq!(first.layer_verts.entry_values(2), &[0]);
    assert_eq!(count_all_crossings(&first.v_pos, &first.layer_edges), 0);
}
