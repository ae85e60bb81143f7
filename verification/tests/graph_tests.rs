use std::collections::HashMap;
use trellis::error::Error;
use trellis::graph::Graph;
use trellis::layering::create_layer_map;
use trellis::topo_sort::{topo_sort, topo_sort_reverse};

struct GraphBuilder {
    // from -> to
    edges: HashMap<u32, Vec<u32>>,
}

impl GraphBuilder {
    fn edge(&mut self, from: u32, to: u32) {
        self.edges.entry(from).or_default().push(to);
    }

    fn from(&mut self, from: u32) -> GraphBuilderFrom<'_> {
        GraphBuilderFrom { builder: self, from }
    }

    fn path(&mut self, verts: &[u32]) {
        for w in verts.windows(2) {
            self.edge(w[0], w[1]);
        }
    }

    fn build(self) -> Graph {
        let mut sorted = self.edges.iter().collect::<Vec<(&u32, &Vec<u32>)>>();
        sorted.sort_by_key(|e| e.0);
        let mut graph = Graph::new();
        for (&from, to_list) in sorted.iter() {
            // Fill in any empty 'from' entries.
            while graph.num_verts() < from as usize {
                graph.finish_from();
            }
            for &to in to_list.iter() {
                graph.push_to(to);
            }
            graph.finish_from();
        }

        let num_verts = self
            .edges
            .iter()
            .map(|(&from, to_list)| {
                (from + 1).max(to_list.iter().map(|&v| v + 1).max().unwrap_or(0))
            })
            .max()
            .unwrap_or(0);

        while graph.num_verts() < num_verts as usize {
            graph.finish_from();
        }

        assert!(trellis::graph::assert_graph_is_well_formed(&graph));
        graph
    }
}

struct GraphBuilderFrom<'a> {
    from: u32,
    builder: &'a mut GraphBuilder,
}

impl<'a> GraphBuilderFrom<'a> {
    fn to(self, to: u32) -> Self {
        self.builder.edge(self.from, to);
        Self { builder: self.builder, from: to }
    }
}

fn graph_builder() -> GraphBuilder {
    GraphBuilder { edges: HashMap::new() }
}

fn graph_from_paths(paths: &[&[u32]]) -> Graph {
    let mut b = graph_builder();
    for &path in paths.iter() {
        b.path(path);
    }
    b.build()
}

#[test]
fn topo_sort_test() {
    fn case(description: &str, steps: impl Fn(&mut GraphBuilder), expected_result: Result<Vec<u32>, Error>) {
        let mut g = graph_builder();
        steps(&mut g);
        let graph = g.build();
        let result = topo_sort(&graph);
        assert_eq!(
            result, expected_result,
            "(actual : expected) {:?}, graph: {:#?}",
            description, graph
        );
    }

    case("empty graph", |_| {}, Ok(vec![]));

    case(
        "self-edge",
        |g| {
            g.from(0).to(0);
        },
        Err(Error::FoundCycle),
    );

    case(
        "linear path",
        |g| {
            g.path(&[1, 2, 3, 4, 5]);
        },
        Ok(vec![1, 2, 3, 4, 5]),
    );

    case(
        "linear path reversed",
        |g| {
            g.path(&[5, 4, 3, 2, 1]);
        },
        Ok(vec![5, 4, 3, 2, 1]),
    );

    case(
        "simple loop",
        |g| {
            g.from(0).to(1).to(2).to(0);
        },
        Err(Error::FoundCycle),
    );

    case(
        "single edge",
        |g| {
            g.from(0).to(1);
        },
        Ok(vec![0, 1]),
    );

    case(
        "tree",
        |g| {
            g.path(&[0, 1, 2]);
            g.path(&[0, 3, 4]);
            g.path(&[0, 5, 6]);
        },
        Ok(vec![0, 5, 6, 3, 4, 1, 2]),
    );

    case(
        "lots of small loops",
        |g| {
            g.path(&[1, 2, 3, 4, 5]);
            g.path(&[5, 4, 3, 2, 1]);
        },
        Err(Error::FoundCycle),
    );
}

#[test]
fn create_layer_map_test() {
    fn case(description: &str, graph: &Graph) {
        let layer_map = create_layer_map(graph);
        println!(
            "--- {}\ngraph: {:#?}\nlayer_map: {:#?}\n",
            description, graph, layer_map
        );
    }

    case("empty", &Graph::new());

    case("self-edge", &graph_from_paths(&[&[0, 0]]));

    case("linear path", &graph_from_paths(&[&[1, 2, 3, 4, 5]]));

    case(
        "two linear paths, not connected",
        &graph_from_paths(&[&[10, 11, 12, 13, 14], &[20, 21, 22, 23, 24]]),
    );

    case(
        "two linear paths, connected at source",
        &graph_from_paths(&[&[1, 10, 11, 12], &[1, 20, 21, 22]]),
    );

    case(
        "two linear paths, connected at sink",
        &graph_from_paths(&[&[10, 11, 12, 1], &[20, 21, 22, 1]]),
    );

    case(
        "two linear paths, connected at middle",
        &graph_from_paths(&[&[10, 11, 1, 12, 13], &[20, 21, 1, 22, 23]]),
    );
}

#[test]
fn transpose_test() {
    fn case(description: &str, graph: &Graph) {
        println!("{} -----", description);
        println!("input graph: {:#?}", graph);
        let t_graph = graph.transpose();
        println!("transposed graph = {:#?}", t_graph);
    }
    case("empty", &graph_from_paths(&[]));
    case("simple", &graph_from_paths(&[&[1, 2, 3], &[10, 11, 12, 13, 14]]));
}

#[test]
fn empty_graph_has_one_layer() {
    let graph = Graph::new();
    assert_eq!(topo_sort(&graph), Ok(vec![]));
    let layers = create_layer_map(&graph).unwrap();
    assert_eq!(layers.num_layers, 1);
    assert!(layers.v_layer.is_empty());
}

#[test]
fn self_edge_is_a_cycle() {
    let graph = graph_from_paths(&[&[0, 0]]);
    assert_eq!(topo_sort(&graph), Err(Error::FoundCycle));
    assert_eq!(topo_sort_reverse(&graph), Err(Error::FoundCycle));
    assert_eq!(create_layer_map(&graph), Err(Error::FoundCycle));
}

#[test]
fn simple_loop_is_a_cycle() {
    let mut b = graph_builder();
    b.from(0).to(1).to(2).to(0);
    let graph = b.build();
    assert_eq!(topo_sort(&graph), Err(Error::FoundCycle));
}

#[test]
fn linear_path_layers() {
    let graph = graph_from_paths(&[&[1, 2, 3, 4, 5]]);
    assert_eq!(topo_sort(&graph), Ok(vec![1, 2, 3, 4, 5]));
    assert_eq!(topo_sort_reverse(&graph), Ok(vec![5, 4, 3, 2, 1]));
    let layers = create_layer_map(&graph).unwrap();
    // Vertex 0 has no edges and stays on layer zero.
    assert_eq!(layers.v_layer, vec![0, 4, 3, 2, 1, 0]);
    assert_eq!(layers.num_layers, 5);
}

#[test]
fn isolated_vertices_are_not_sorted() {
    // Vertices 0, 3 and 4 have no edges.
    let mut graph = Graph::new();
    graph.finish_from();
    graph.push_to(2);
    graph.finish_from();
    graph.finish_from();
    graph.finish_from();
    graph.finish_from();
    assert!(trellis::graph::assert_graph_is_well_formed(&graph));
    assert_eq!(topo_sort(&graph), Ok(vec![1, 2]));
}

#[test]
fn topo_order_puts_targets_first() {
    let graph = graph_from_paths(&[&[0, 3, 1], &[0, 2, 1], &[4, 2], &[3, 2]]);
    let order = topo_sort_reverse(&graph).unwrap();
    let place = |v: u32| order.iter().position(|&x| x == v).unwrap();
    for (from, to) in graph.iter_edges_flattened() {
        assert!(place(to) < place(from), "{} -> {}", from, to);
    }
    let mut seen = order.clone();
    seen.sort();
    assert_eq!(seen, vec![0, 1, 2, 3, 4]);
}

#[test]
fn layers_point_down() {
    let graph = graph_from_paths(&[&[0, 3, 1], &[0, 2, 1], &[4, 2], &[3, 2]]);
    let layers = create_layer_map(&graph).unwrap();
    assert_eq!(layers.v_layer, vec![3, 0, 1, 2, 2]);
    assert_eq!(layers.num_layers, 4);
    for (from, to) in graph.iter_edges_flattened() {
        assert!(layers.v_layer[from as usize] > layers.v_layer[to as usize]);
    }
}

#[test]
fn transpose_reverses_edges() {
    let graph = graph_from_paths(&[&[1, 2, 3], &[0, 2], &[1, 3]]);
    let t = graph.transpose();
    assert_eq!(t.num_verts(), 4);
    assert_eq!(t.num_edges(), 4);
    assert_eq!(t.edges_from(0), &[] as &[u32]);
    assert_eq!(t.edges_from(1), &[] as &[u32]);
    assert_eq!(t.edges_from(2), &[0, 1]);
    assert_eq!(t.edges_from(3), &[1, 2]);
    assert!(trellis::graph::assert_graph_is_well_formed(&t));
}

#[test]
fn transpose_twice_keeps_neighbours() {
    let graph = graph_from_paths(&[&[3, 1, 0], &[3, 0], &[2, 0], &[2, 3]]);
    let twice = graph.transpose().transpose();
    assert_eq!(twice.num_verts(), graph.num_verts());
    for v in 0..graph.num_verts() as u32 {
        let mut a = graph.edges_from(v).to_vec();
        let mut b = twice.edges_from(v).to_vec();
        a.sort();
        b.sort();
        assert_eq!(a, b);
    }
}

#[test]
fn well_formedness_is_checked() {
    let mut graph = Graph::new();
    graph.push_to(1);
    // The edge is still pending.
    assert!(!trellis::graph::assert_graph_is_well_formed(&graph));
    graph.finish_from();
    // The target is not a vertex yet.
    assert!(!trellis::graph::assert_graph_is_well_formed(&graph));
    graph.finish_from();
    assert!(trellis::graph::assert_graph_is_well_formed(&graph));
    assert!(trellis::assert_graph_is_well_formed(graph.edges()));
    graph.edges_mut().index[1] = 5;
    assert!(!trellis::graph::assert_graph_is_well_formed(&graph));
}

#[test]
fn edges_are_listed_in_order() {
    let graph = graph_from_paths(&[&[1, 2, 3], &[1, 3]]);
    assert_eq!(graph.iter_edges_flattened(), vec![(1, 2), (1, 3), (2, 3)]);
    let from_edges = graph.iter_from_edges();
    assert_eq!(from_edges.len(), 4);
    assert_eq!(from_edges[1], (1, &[2u32, 3][..]));
    assert_eq!(from_edges[3], (3, &[][..]));
    assert_eq!(graph.edges().num_values(), 3);
}
